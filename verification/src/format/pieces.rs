//! A piece of XML reads as the same piece however the line breaks in it are written, and
//! whatever stands behind it.

use crate::format::breaks::{is_break, is_newline, lemma_behind, lemma_blank, lemma_both,
    lemma_came_unbroken, lemma_contains, lemma_first_char, lemma_front, lemma_kept, lemma_newline,
    lemma_skip, lemma_split, lemma_split_at, norm, unbroken};
use crate::format::xml::{breaks, broken_from, close_name, lemma_attribute, lemma_markup,
    lemma_tag_end, markup, open_name, preserves, preserves_from, run_to, tag_end, tag_part,
    without_angles, Part};
use crate::text::{blank, ends, first, first_space, found, is_space, lemma_first, lemma_found,
    lemma_skip_space, lemma_space_before, skip_space, space_before, stands_at, starts, trimmed,
    trimmed_end, trimmed_start};
use vstd::prelude::*;

verus! {

// ---------------------------------------------------------------------------------------
// Searching
// ---------------------------------------------------------------------------------------

/// Characters that come out in front came from the front.
proof fn lemma_same_run(
    t: Seq<char>,
    e: Seq<char>,
    i: int,
    k: int,
    rest: Seq<char>,
    newline: Seq<char>,
)
    requires
        is_newline(newline),
        unbroken(e),
        0 <= i,
        0 <= k <= e.len(),
        i + k <= t.len(),
        i + e.len() <= t.len() || rest.len() == 0,
        stands_at(broken_from(t, i + k, newline) + rest, e.subrange(k, e.len() as int), 0),
    ensures
        i + e.len() <= t.len(),
        forall|m: int| k <= m < e.len() ==> t[i + m] == #[trigger] e[m],
    decreases e.len() - k,
{
    if k < e.len() {
        let b = broken_from(t, i + k, newline);
        let n = b + rest;
        let u = e.subrange(k, e.len() as int);
        assert(n.subrange(0, u.len() as int)[0] == n[0]);
        assert(u[0] == e[k]);
        if i + k < t.len() {
            lemma_first_char(t, i + k, newline);
            assert(n[0] == b[0]);
            assert(!is_break(e[k]));
            let b2 = broken_from(t, i + k + 1, newline);
            assert(b == seq![t[i + k]] + b2);
            let u2 = e.subrange(k + 1, e.len() as int);
            assert((b2 + rest).subrange(0, u2.len() as int) =~= u2) by {
                assert forall|m: int| 0 <= m < u2.len() implies (b2 + rest)[m] == u2[m] by {
                    assert(n[m + 1] == (b2 + rest)[m]);
                    assert(n.subrange(0, u.len() as int)[m + 1] == u[m + 1]);
                }
            }
            lemma_same_run(t, e, i, k + 1, rest, newline);
        }
    }
}

/// What has no line break in it does not stand at one.
proof fn lemma_not_at_break(n: Seq<char>, e: Seq<char>, k: int)
    requires
        unbroken(e),
        e.len() > 0,
        0 <= k < n.len(),
        is_break(n[k]),
    ensures
        !stands_at(n, e, k),
{
    if stands_at(n, e, k) {
        assert(n.subrange(k, k + e.len())[0] == n[k]);
        assert(is_break(e[0]));
    }
}

/// What is found first in a text, at its end, is found there however the line breaks before it
/// are written, and whatever stands behind it.
proof fn lemma_found_again(
    t: Seq<char>,
    e: Seq<char>,
    i: int,
    pre: Seq<char>,
    rest: Seq<char>,
    newline: Seq<char>,
)
    requires
        is_newline(newline),
        unbroken(e),
        e.len() > 0,
        0 <= i,
        found(t, e, i) == Some(t.len() - e.len()),
    ensures
        found(pre + broken_from(t, i, newline) + rest, e, pre.len() as int) == Some(
            pre.len() + broken_from(t, i, newline).len() - e.len(),
        ),
    decreases t.len() - i,
{
    let at = t.len() - e.len();
    let b = broken_from(t, i, newline);
    let n = pre + b + rest;
    let p = pre.len() as int;
    lemma_found(t, e, i);
    lemma_newline(newline);
    if i == at {
        lemma_skip(t, i, 0, newline);
        assert(t.subrange(i, t.len() as int) =~= t.subrange(at, at + e.len()));
        lemma_kept(e, newline);
        assert(n.subrange(p, p + e.len()) =~= e);
    } else {
        assert(!stands_at(t, e, i));
        assert(found(t, e, i + 1) == Some(at));
        if !is_break(t[i]) {
            lemma_first_char(t, i, newline);
            let b2 = broken_from(t, i + 1, newline);
            if stands_at(n, e, p) {
                assert((b + rest).subrange(0, e.len() as int) =~= n.subrange(p, p + e.len()));
                assert(e.subrange(0, e.len() as int) =~= e);
                lemma_same_run(t, e, i, 0, rest, newline);
                assert(t.subrange(i, i + e.len()) =~= e);
            }
            lemma_found_again(t, e, i + 1, pre.push(t[i]), rest, newline);
            assert(pre.push(t[i]) + b2 + rest =~= n);
            lemma_found(n, e, p + 1);
        } else {
            let step = if t[i] == '\r' && i + 1 < t.len() && t[i + 1] == '\n' {
                2
            } else {
                1int
            };
            if step == 2 {
                if stands_at(t, e, i + 1) {
                    assert(t.subrange(i + 1, i + 1 + e.len())[0] == t[i + 1]);
                    assert(is_break(e[0]));
                }
                lemma_found(t, e, i + 1);
                assert(found(t, e, i + 2) == Some(at));
            }
            lemma_found_again(t, e, i + step, pre + newline, rest, newline);
            let b2 = broken_from(t, i + step, newline);
            assert(b == newline + b2);
            assert(pre + newline + b2 + rest =~= n);
            lemma_found(n, e, p + newline.len());
            assert(n[p] == newline[0]);
            lemma_not_at_break(n, e, p);
            if newline.len() == 2 {
                assert(n[p + 1] == newline[1]);
                lemma_not_at_break(n, e, p + 1);
                assert(found(n, e, p + 1) == found(n, e, p + 2));
            }
            assert(found(n, e, p) == found(n, e, p + newline.len()));
        }
    }
}

proof fn lemma_found_local(s: Seq<char>, e: Seq<char>, i: int, at: int)
    requires
        0 <= i,
        found(s, e, i) == Some(at),
    ensures
        found(s.subrange(0, at + e.len()), e, i) == Some(at),
    decreases at - i,
{
    lemma_found(s, e, i);
    let t = s.subrange(0, at + e.len());
    if i == at {
        assert(t.subrange(at, at + e.len()) =~= s.subrange(at, at + e.len()));
    } else {
        assert(!stands_at(s, e, i));
        if stands_at(t, e, i) {
            assert(t.subrange(i, i + e.len()) =~= s.subrange(i, i + e.len()));
        }
        lemma_found_local(s, e, i + 1, at);
    }
}

/// A tag ends where it did.
proof fn lemma_tag_again(
    t: Seq<char>,
    i: int,
    quote: Option<char>,
    brackets: nat,
    pre: Seq<char>,
    rest: Seq<char>,
    newline: Seq<char>,
)
    requires
        is_newline(newline),
        0 <= i <= t.len(),
        quote matches Some(open) ==> open == '"' || open == '\'',
        tag_end(t, i, quote, brackets) == Some(t.len() as int),
    ensures
        tag_end(pre + broken_from(t, i, newline) + rest, pre.len() as int, quote, brackets) == Some(
            (pre.len() + broken_from(t, i, newline).len()) as int,
        ),
    decreases t.len() - i,
{
    let b = broken_from(t, i, newline);
    let n = pre + b + rest;
    let p = pre.len() as int;
    lemma_newline(newline);
    let c = t[i];
    if !is_break(c) {
        lemma_first_char(t, i, newline);
        let b2 = broken_from(t, i + 1, newline);
        assert(pre.push(c) + b2 + rest =~= n);
        assert(n[p] == c);
        if quote is None && c == '>' && brackets == 0 {
            assert(b2.len() == 0);
        } else {
            let next = match quote {
                Some(open) => if c == open {
                    None
                } else {
                    quote
                },
                None => if c == '"' || c == '\'' {
                    Some(c)
                } else {
                    None
                },
            };
            let deep = if quote is None && c == '[' {
                brackets + 1
            } else if quote is None && c == ']' {
                if brackets == 0 {
                    0
                } else {
                    (brackets - 1) as nat
                }
            } else {
                brackets
            };
            lemma_tag_again(t, i + 1, next, deep, pre.push(c), rest, newline);
        }
    } else {
        let step = if t[i] == '\r' && i + 1 < t.len() && t[i + 1] == '\n' {
            2
        } else {
            1int
        };
        assert(tag_end(t, i, quote, brackets) == tag_end(t, i + 1, quote, brackets));
        if step == 2 {
            assert(tag_end(t, i + 1, quote, brackets) == tag_end(t, i + 2, quote, brackets));
        }
        lemma_tag_again(t, i + step, quote, brackets, pre + newline, rest, newline);
        let b2 = broken_from(t, i + step, newline);
        assert(b == newline + b2);
        assert(pre + newline + b2 + rest =~= n);
        assert(n[p] == newline[0]);
        assert(is_break(newline[0]));
        assert(tag_end(n, p, quote, brackets) == tag_end(n, p + 1, quote, brackets));
        if newline.len() == 2 {
            assert(n[p + 1] == newline[1]);
            assert(is_break(newline[1]));
            assert(tag_end(n, p + 1, quote, brackets) == tag_end(n, p + 2, quote, brackets));
        }
    }
}

proof fn lemma_tag_local(s: Seq<char>, i: int, quote: Option<char>, brackets: nat, end: int)
    requires
        0 <= i,
        tag_end(s, i, quote, brackets) == Some(end),
    ensures
        tag_end(s.subrange(0, end), i, quote, brackets) == Some(end),
    decreases s.len() - i,
{
    let t = s.subrange(0, end);
    lemma_tag_end(s, i, quote, brackets);
    let c = s[i];
    assert(t[i] == c);
    if quote is None && c == '>' && brackets == 0 {
    } else {
        let next = match quote {
            Some(open) => if c == open {
                None
            } else {
                quote
            },
            None => if c == '"' || c == '\'' {
                Some(c)
            } else {
                None
            },
        };
        let deep = if quote is None && c == '[' {
            brackets + 1
        } else if quote is None && c == ']' {
            if brackets == 0 {
                0
            } else {
                (brackets - 1) as nat
            }
        } else {
            brackets
        };
        lemma_tag_local(s, i + 1, next, deep, end);
    }
}

// ---------------------------------------------------------------------------------------
// Beginnings and ends
// ---------------------------------------------------------------------------------------

/// A text that ends in `>` begins the same way however its line breaks are written, and
/// whatever stands behind it.
proof fn lemma_starts_again(t: Seq<char>, p: Seq<char>, rest: Seq<char>, newline: Seq<char>)
    requires
        is_newline(newline),
        unbroken(p),
        !p.contains('>'),
        t.len() > 0,
        t.last() == '>',
    ensures
        starts(norm(t, newline) + rest, p) == starts(t, p),
{
    let n = norm(t, newline) + rest;
    if starts(t, p) {
        let u = t.subrange(p.len() as int, t.len() as int);
        assert(t =~= p + u);
        if p.len() > 0 {
            assert(!is_break(p[p.len() - 1]));
        }
        lemma_split(p, u, newline);
        lemma_kept(p, newline);
        assert(n.subrange(0, p.len() as int) =~= p);
    }
    if starts(n, p) {
        let e = if p.len() <= t.len() {
            p
        } else {
            p.subrange(0, t.len() as int)
        };
        assert forall|k: int| 0 <= k < e.len() implies !is_break(#[trigger] e[k]) by {
            assert(e[k] == p[k]);
        }
        assert(n.subrange(0, e.len() as int) =~= e) by {
            assert forall|k: int| 0 <= k < e.len() implies n[k] == e[k] by {
                assert(n.subrange(0, p.len() as int)[k] == p[k]);
            }
            assert(e.len() <= n.len());
        }
        assert(e.subrange(0, e.len() as int) =~= e);
        assert(stands_at(n, e, 0));
        lemma_same_run(t, e, 0, 0, rest, newline);
        if p.len() > t.len() {
            assert(t[t.len() - 1] == e[t.len() - 1]);
            assert(p[t.len() - 1] == '>');
        } else {
            assert forall|k: int| 0 <= k < p.len() implies t[k] == p[k] by {
                assert(t[0 + k] == e[k]);
            }
            assert(t.subrange(0, p.len() as int) =~= p);
        }
    }
}

/// The last character written another way is the one it was, or one of a line break where it
/// was one.
proof fn lemma_last_char(s: Seq<char>, newline: Seq<char>)
    requires
        is_newline(newline),
        s.len() > 0,
    ensures
        norm(s, newline).len() > 0,
        !is_break(s.last()) ==> norm(s, newline).last() == s.last() && norm(s, newline).drop_last()
            == norm(s.drop_last(), newline),
        is_break(s.last()) ==> is_break(norm(s, newline).last()),
{
    lemma_newline(newline);
    let a = s.drop_last();
    assert(s =~= a.push(s.last()));
    if !is_break(s.last()) {
        lemma_behind(a, s.last(), newline);
        assert(norm(a, newline).push(s.last()).drop_last() =~= norm(a, newline));
    } else {
        let k = if s.len() > 1 && s.last() == '\n' && s[s.len() - 2] == '\r' {
            s.len() - 2
        } else {
            s.len() - 1
        };
        let u = s.subrange(0, k);
        let v = s.subrange(k, s.len() as int);
        assert(s =~= u + v);
        if u.len() > 0 && v[0] == '\n' {
            assert(v[0] == s[k]);
            assert(u.last() == s[k - 1]);
            assert(k == s.len() - 1);
        }
        lemma_split(u, v, newline);
        reveal_with_fuel(broken_from, 3);
        assert(norm(v, newline) =~= newline);
        let b = norm(s, newline);
        assert(b == norm(u, newline) + newline);
        assert(b.last() == newline.last());
        assert(is_break(newline[newline.len() - 1]));
    }
}

proof fn lemma_ends_again(t: Seq<char>, newline: Seq<char>)
    requires
        is_newline(newline),
        t.len() >= 2,
        t.last() == '>',
    ensures
        ends(norm(t, newline), "/>"@) == ends(t, "/>"@),
{
    reveal_strlit("/>");
    let n = norm(t, newline);
    let u = t.drop_last();
    lemma_last_char(t, newline);
    lemma_last_char(u, newline);
    let p = "/>"@;
    assert(p.len() == 2 && p[0] == '/' && p[1] == '>');
    assert(n.drop_last() == norm(u, newline));
    assert(n.len() >= 2);
    assert(n[n.len() - 2] == n.drop_last().last());
    assert(u.last() == t[t.len() - 2]);
    if ends(t, p) {
        assert(t.subrange(t.len() - 2, t.len() as int)[0] == t[t.len() - 2]);
        assert(n.subrange(n.len() - 2, n.len() as int) =~= p);
    }
    if ends(n, p) {
        assert(n.subrange(n.len() - 2, n.len() as int)[0] == n[n.len() - 2]);
        assert(t.subrange(t.len() - 2, t.len() as int) =~= p);
    }
}

// ---------------------------------------------------------------------------------------
// White space around words
// ---------------------------------------------------------------------------------------

/// Where white space ends is where what is no white space begins.
proof fn lemma_skip_to(s: Seq<char>, i: int, k: int)
    requires
        0 <= i <= k <= s.len(),
        forall|m: int| i <= m < k ==> is_space(#[trigger] s[m]),
        k < s.len() ==> !is_space(s[k]),
    ensures
        skip_space(s, i) == k,
    decreases k - i,
{
    if i < k {
        assert(is_space(s[i]));
        lemma_skip_to(s, i + 1, k);
    }
}

proof fn lemma_before_to(s: Seq<char>, i: int, k: int)
    requires
        0 <= k <= i <= s.len(),
        forall|m: int| k <= m < i ==> is_space(#[trigger] s[m]),
        k > 0 ==> !is_space(s[k - 1]),
    ensures
        space_before(s, i) == k,
    decreases i - k,
{
    if k < i {
        assert(is_space(s[i - 1]));
        lemma_before_to(s, i - 1, k);
    }
}

/// White space around a word is what trimming takes away.
proof fn lemma_trim(a: Seq<char>, m: Seq<char>, z: Seq<char>)
    requires
        blank(a),
        blank(z),
        m.len() > 0,
        !is_space(m[0]),
        !is_space(m.last()),
    ensures
        trimmed(a + m + z) == m,
{
    let s = a + m + z;
    assert forall|k: int| 0 <= k < a.len() implies is_space(#[trigger] s[k]) by {
        assert(s[k] == a[k]);
    }
    assert(s[a.len() as int] == m[0]);
    lemma_skip_to(s, 0, a.len() as int);
    let u = trimmed_start(s);
    assert(u =~= m + z);
    assert forall|k: int| m.len() <= k < u.len() implies is_space(#[trigger] u[k]) by {
        assert(u[k] == z[k - m.len()]);
    }
    assert(u[m.len() - 1] == m.last());
    lemma_before_to(u, u.len() as int, m.len() as int);
    assert(trimmed_end(u) =~= m);
}

/// A text is the white space around it and what trimming leaves.
proof fn lemma_trimmed_parts(s: Seq<char>) -> (r: (Seq<char>, Seq<char>))
    ensures
        s == r.0 + trimmed(s) + r.1,
        blank(r.0),
        blank(r.1),
        trimmed(s).len() > 0 ==> !is_space(trimmed(s)[0]) && !is_space(trimmed(s).last()),
{
    let i = skip_space(s, 0);
    lemma_skip_space(s, 0);
    let u = trimmed_start(s);
    let k = space_before(u, u.len() as int);
    lemma_space_before(u, u.len() as int);
    let a = s.subrange(0, i);
    let z = u.subrange(k, u.len() as int);
    let m = trimmed(s);
    assert(u =~= m + z);
    assert(s =~= a + m + z);
    if m.len() > 0 {
        assert(m[0] == u[0]);
        assert(u[0] == s[i]);
        assert(m.last() == u[k - 1]);
    }
    (a, z)
}

proof fn lemma_norm_around(a: Seq<char>, m: Seq<char>, z: Seq<char>, newline: Seq<char>)
    requires
        is_newline(newline),
        m.len() > 0,
        !is_space(m[0]),
        !is_space(m.last()),
    ensures
        norm(a + m + z, newline) == norm(a, newline) + norm(m, newline) + norm(z, newline),
{
    assert(is_space('\n') && is_space('\r'));
    lemma_split(a, m, newline);
    assert((a + m).last() == m.last());
    lemma_split(a + m, z, newline);
}

pub proof fn lemma_blank_norm(s: Seq<char>, newline: Seq<char>)
    requires
        is_newline(newline),
    ensures
        blank(norm(s, newline)) == blank(s),
        breaks(norm(s, newline)) == breaks(s),
        (norm(s, newline).len() == 0) == (s.len() == 0),
{
    lemma_blank(s, 0, newline);
    assert(s.subrange(0, s.len() as int) =~= s);
}

/// A text is the same word once trimmed, however its line breaks are written.
proof fn lemma_trimmed_again(s: Seq<char>, m: Seq<char>, newline: Seq<char>)
    requires
        is_newline(newline),
        m.len() > 0,
        forall|k: int| 0 <= k < m.len() ==> !is_space(#[trigger] m[k]),
    ensures
        (trimmed(norm(s, newline)) == m) == (trimmed(s) == m),
{
    let (a, z) = lemma_trimmed_parts(s);
    let y = trimmed(s);
    assert(is_space('\n') && is_space('\r'));
    assert(unbroken(m)) by {
        assert forall|k: int| 0 <= k < m.len() implies !is_break(#[trigger] m[k]) by {
            assert(!is_space(m[k]));
        }
    }
    if y.len() == 0 {
        assert(s =~= a + z);
        lemma_both(a, z);
        lemma_blank_norm(s, newline);
        let n = norm(s, newline);
        let (b, c) = lemma_trimmed_parts(n);
        if trimmed(n) == m {
            assert(n[b.len() as int] == m[0]);
            assert(is_space(n[b.len() as int]));
        }
    } else {
        lemma_norm_around(a, y, z, newline);
        lemma_blank_norm(a, newline);
        lemma_blank_norm(z, newline);
        lemma_first_char(y, 0, newline);
        lemma_last_char(y, newline);
        lemma_trim(norm(a, newline), norm(y, newline), norm(z, newline));
        assert(trimmed(norm(s, newline)) == norm(y, newline));
        if y == m {
            lemma_kept(m, newline);
        }
        if norm(y, newline) == m {
            lemma_came_unbroken(y, newline);
        }
    }
}

// ---------------------------------------------------------------------------------------
// Names
// ---------------------------------------------------------------------------------------

proof fn lemma_first_space_to(s: Seq<char>, i: int, k: int)
    requires
        0 <= i <= k <= s.len(),
        forall|m: int| i <= m < k ==> !is_space(#[trigger] s[m]),
        k < s.len() ==> is_space(s[k]),
    ensures
        first_space(s, i) == k,
    decreases k - i,
{
    if i < k {
        assert(!is_space(s[i]));
        lemma_first_space_to(s, i + 1, k);
    }
}

proof fn lemma_first_space_is(s: Seq<char>, i: int)
    requires
        0 <= i <= s.len(),
    ensures
        i <= first_space(s, i) <= s.len(),
        forall|m: int| i <= m < first_space(s, i) ==> !is_space(#[trigger] s[m]),
        first_space(s, i) < s.len() ==> is_space(s[first_space(s, i)]),
    decreases s.len() - i,
{
    if i < s.len() && !is_space(s[i]) {
        lemma_first_space_is(s, i + 1);
    }
}

/// A tag with its line breaks written another way is its angle brackets around what is between
/// them.
proof fn lemma_inside(t: Seq<char>, newline: Seq<char>)
    requires
        is_newline(newline),
        t.len() >= 2,
        t[0] == '<',
        t.last() == '>',
    ensures
        ({
            let n = norm(t, newline);
            &&& n.len() >= 2
            &&& n[0] == '<'
            &&& n.last() == '>'
            &&& n.subrange(1, n.len() - 1) == norm(t.subrange(1, t.len() - 1), newline)
        }),
{
    let body = t.subrange(1, t.len() - 1);
    let n = norm(t, newline);
    assert(t =~= (seq!['<'] + body).push('>'));
    lemma_behind(seq!['<'] + body, '>', newline);
    lemma_front('<', body, newline);
    assert(n == (seq!['<'] + norm(body, newline)).push('>'));
    assert(n.subrange(1, n.len() - 1) =~= norm(body, newline));
}

proof fn lemma_open_name(t: Seq<char>, newline: Seq<char>)
    requires
        is_newline(newline),
        t.len() >= 2,
        t[0] == '<',
        t.last() == '>',
    ensures
        open_name(norm(t, newline)) == open_name(t),
        forall|k: int| 0 <= k < open_name(t).len() ==> !is_space(#[trigger] open_name(t)[k]),
{
    lemma_inside(t, newline);
    let body = t.subrange(1, t.len() - 1);
    let f = first_space(body, 0);
    lemma_first_space_is(body, 0);
    let name = body.subrange(0, f);
    let u = body.subrange(f, body.len() as int);
    assert(body =~= name + u);
    assert(is_space('\n') && is_space('\r'));
    assert forall|k: int| 0 <= k < name.len() implies !is_space(#[trigger] name[k]) by {
        assert(name[k] == body[k]);
    }
    assert(unbroken(name)) by {
        assert forall|k: int| 0 <= k < name.len() implies !is_break(#[trigger] name[k]) by {
            assert(!is_space(name[k]));
        }
    }
    lemma_split(name, u, newline);
    lemma_kept(name, newline);
    let nb = norm(body, newline);
    assert(nb == name + norm(u, newline));
    if u.len() > 0 {
        lemma_first_char(u, 0, newline);
        assert(u[0] == body[f]);
        assert(nb[f] == norm(u, newline)[0]);
    } else {
        assert(norm(u, newline).len() == 0);
    }
    assert forall|m: int| 0 <= m < f implies !is_space(#[trigger] nb[m]) by {
        assert(nb[m] == name[m]);
    }
    lemma_first_space_to(nb, 0, f);
    assert(nb.subrange(0, f) =~= name);
}

proof fn lemma_without_angles(u: Seq<char>, newline: Seq<char>)
    requires
        is_newline(newline),
    ensures
        without_angles(norm(u, newline)) == norm(without_angles(u), newline),
    decreases u.len(),
{
    if u.len() > 0 {
        lemma_last_char(u, newline);
        if u.last() == '>' {
            lemma_without_angles(u.drop_last(), newline);
        }
    } else {
        assert(norm(u, newline).len() == 0);
    }
}

proof fn lemma_close_name(t: Seq<char>, newline: Seq<char>)
    requires
        is_newline(newline),
        starts(t, "</"@),
        close_name(t).len() > 0,
        forall|k: int| 0 <= k < close_name(t).len() ==> !is_space(#[trigger] close_name(t)[k]),
    ensures
        close_name(norm(t, newline)) == close_name(t),
{
    reveal_strlit("</");
    let p = "</"@;
    let u = t.subrange(2, t.len() as int);
    assert(t.subrange(0, 2)[0] == t[0] && t.subrange(0, 2)[1] == t[1]);
    assert(t =~= p + u);
    assert(unbroken(p)) by {
        assert(p[0] == '<' && p[1] == '/');
    }
    lemma_split(p, u, newline);
    lemma_kept(p, newline);
    let n = norm(t, newline);
    assert(n.subrange(2, n.len() as int) =~= norm(u, newline));
    lemma_without_angles(u, newline);
    lemma_trimmed_again(without_angles(u), close_name(t), newline);
}

// ---------------------------------------------------------------------------------------
// Attributes
// ---------------------------------------------------------------------------------------

proof fn lemma_first_to(s: Seq<char>, c: char, i: int, k: int)
    requires
        0 <= i <= k <= s.len(),
        forall|m: int| i <= m < k ==> #[trigger] s[m] != c,
        k < s.len() ==> s[k] == c,
    ensures
        first(s, c, i) == k,
    decreases k - i,
{
    if i < k {
        assert(s[i] != c);
        lemma_first_to(s, c, i + 1, k);
    }
}

/// White space in front of a place is passed over wherever it stands.
proof fn lemma_over_space(s: Seq<char>, i: int, pre: Seq<char>, newline: Seq<char>) -> (r: Seq<char>)
    requires
        is_newline(newline),
        0 <= i <= s.len(),
    ensures
        ({
            let k = skip_space(s, i);
            let n = pre + broken_from(s, i, newline);
            &&& i <= k <= s.len()
            &&& n == r + broken_from(s, k, newline)
            &&& skip_space(n, pre.len() as int) == r.len()
            &&& pre.len() <= r.len()
        }),
{
    let k = skip_space(s, i);
    lemma_skip_space(s, i);
    assert(is_space('\n') && is_space('\r'));
    lemma_split_at(s, i, k, newline);
    let mid = norm(s.subrange(i, k), newline);
    lemma_blank_norm(s.subrange(i, k), newline);
    let r = pre + mid;
    let n = pre + broken_from(s, i, newline);
    assert(n =~= r + broken_from(s, k, newline));
    assert forall|m: int| pre.len() <= m < r.len() implies is_space(#[trigger] n[m]) by {
        assert(n[m] == mid[m - pre.len()]);
    }
    if k < s.len() {
        lemma_first_char(s, k, newline);
        assert(n[r.len() as int] == broken_from(s, k, newline)[0]);
    } else {
        assert(broken_from(s, k, newline).len() == 0);
    }
    lemma_skip_to(n, pre.len() as int, r.len() as int);
    r
}

/// A character is found wherever it stands, with what is before it.
proof fn lemma_up_to(s: Seq<char>, i: int, c: char, pre: Seq<char>, newline: Seq<char>) -> (r: Seq<
    char,
>)
    requires
        is_newline(newline),
        0 <= i <= s.len(),
        !is_break(c),
    ensures
        ({
            let k = first(s, c, i);
            let n = pre + broken_from(s, i, newline);
            &&& i <= k <= s.len()
            &&& r == pre + norm(s.subrange(i, k), newline)
            &&& n == r + broken_from(s, k, newline)
            &&& first(n, c, pre.len() as int) == r.len()
        }),
{
    let k = first(s, c, i);
    lemma_first(s, c, i);
    lemma_split_at(s, i, k, newline);
    let t = s.subrange(i, k);
    let mid = norm(t, newline);
    lemma_contains(t, 0, c, newline);
    assert(t.subrange(0, t.len() as int) =~= t);
    if t.contains(c) {
        let m = choose|m: int| 0 <= m < t.len() && t[m] == c;
        assert(s[i + m] == c);
    }
    let r = pre + mid;
    let n = pre + broken_from(s, i, newline);
    assert(n =~= r + broken_from(s, k, newline));
    assert forall|m: int| pre.len() <= m < r.len() implies #[trigger] n[m] != c by {
        if n[m] == c {
            assert(mid[m - pre.len()] == c);
            assert(mid.contains(c));
        }
    }
    if k < s.len() {
        lemma_first_char(s, k, newline);
        assert(n[r.len() as int] == broken_from(s, k, newline)[0]);
    } else {
        assert(broken_from(s, k, newline).len() == 0);
    }
    lemma_first_to(n, c, pre.len() as int, r.len() as int);
    r
}

/// What a tag says of `xml:space` it says however its line breaks are written.
proof fn lemma_preserves_from(s: Seq<char>, i: int, pre: Seq<char>, newline: Seq<char>)
    requires
        is_newline(newline),
        0 <= i <= s.len(),
    ensures
        preserves_from(pre + broken_from(s, i, newline), pre.len() as int) == preserves_from(s, i),
    decreases s.len() - i,
{
    let n = pre + broken_from(s, i, newline);
    let at = skip_space(s, i);
    let equals = first(s, '=', at);
    let value = skip_space(s, equals + 1);
    lemma_attribute(s, i);
    let pre1 = lemma_over_space(s, i, pre, newline);
    assert(n == pre1 + broken_from(s, at, newline));
    let pre2 = lemma_up_to(s, at, '=', pre1, newline);
    assert(n == pre2 + broken_from(s, equals, newline));
    if equals < s.len() {
        lemma_first(s, '=', at);
        lemma_first_char(s, equals, newline);
        let pre3 = pre2.push('=');
        assert(n =~= pre3 + broken_from(s, equals + 1, newline));
        let pre4 = lemma_over_space(s, equals + 1, pre3, newline);
        assert(n == pre4 + broken_from(s, value, newline));
        if value < s.len() {
            lemma_skip_space(s, equals + 1);
            assert(is_space('\n') && is_space('\r'));
            lemma_first_char(s, value, newline);
            let quote = s[value];
            assert(n[pre4.len() as int] == quote);
            if quote == '\'' || quote == '"' {
                let pre5 = pre4.push(quote);
                assert(n =~= pre5 + broken_from(s, value + 1, newline));
                let end = first(s, quote, value + 1);
                let pre6 = lemma_up_to(s, value + 1, quote, pre5, newline);
                assert(n == pre6 + broken_from(s, end, newline));
                if end < s.len() {
                    lemma_first(s, quote, value + 1);
                    lemma_first_char(s, end, newline);
                    let pre7 = pre6.push(quote);
                    assert(n =~= pre7 + broken_from(s, end + 1, newline));
                    lemma_preserves_from(s, end + 1, pre7, newline);
                    let name = s.subrange(at, equals);
                    let held = s.subrange(value + 1, end);
                    assert(n.subrange(pre1.len() as int, pre2.len() as int) =~= norm(name, newline));
                    assert(n.subrange(pre4.len() + 1 as int, pre6.len() as int) =~= norm(held, newline));
                    lemma_words(name, held, newline);
                    assert(pre7.len() == pre6.len() + 1);
                } else {
                    assert(broken_from(s, end, newline).len() == 0);
                    assert(n.len() == pre6.len());
                }
            }
        } else {
            assert(broken_from(s, value, newline).len() == 0);
            assert(n.len() == pre4.len());
        }
    } else {
        assert(broken_from(s, equals, newline).len() == 0);
        assert(n.len() == pre2.len());
    }
}

proof fn lemma_words(name: Seq<char>, held: Seq<char>, newline: Seq<char>)
    requires
        is_newline(newline),
    ensures
        (trimmed(norm(name, newline)) == "xml:space"@) == (trimmed(name) == "xml:space"@),
        (norm(held, newline) == "preserve"@) == (held == "preserve"@),
{
    reveal_strlit("xml:space");
    reveal_strlit("preserve");
    let word = "xml:space"@;
    assert forall|k: int| 0 <= k < word.len() implies !is_space(#[trigger] word[k]) by {
        assert(word.len() == 9);
        assert(word[0] == 'x' && word[1] == 'm' && word[2] == 'l' && word[3] == ':' && word[4]
            == 's' && word[5] == 'p' && word[6] == 'a' && word[7] == 'c' && word[8] == 'e');
    }
    lemma_trimmed_again(name, word, newline);
    let kept = "preserve"@;
    assert(unbroken(kept)) by {
        assert(kept.len() == 8);
        assert(kept[0] == 'p' && kept[1] == 'r' && kept[2] == 'e' && kept[3] == 's' && kept[4]
            == 'e' && kept[5] == 'r' && kept[6] == 'v' && kept[7] == 'e');
    }
    if held == kept {
        lemma_kept(held, newline);
    }
    if norm(held, newline) == kept {
        lemma_came_unbroken(held, newline);
    }
}

/// A tag that keeps its white space keeps it however its line breaks are written.
pub proof fn lemma_preserves(t: Seq<char>, newline: Seq<char>)
    requires
        is_newline(newline),
    ensures
        preserves(norm(t, newline)) == preserves(t),
{
    let f = first_space(t, 0);
    lemma_first_space_is(t, 0);
    let name = t.subrange(0, f);
    let u = t.subrange(f, t.len() as int);
    assert(t =~= name + u);
    assert(is_space('\n') && is_space('\r'));
    assert(unbroken(name)) by {
        assert forall|k: int| 0 <= k < name.len() implies !is_break(#[trigger] name[k]) by {
            assert(name[k] == t[k]);
            assert(!is_space(t[k]));
        }
    }
    if name.len() > 0 {
        assert(!is_break(name[name.len() - 1]));
    }
    lemma_split(name, u, newline);
    lemma_kept(name, newline);
    lemma_skip(t, f, 0, newline);
    let n = norm(t, newline);
    assert(n == name + broken_from(t, f, newline));
    if u.len() > 0 {
        lemma_first_char(t, f, newline);
        assert(n[f] == broken_from(t, f, newline)[0]);
    } else {
        assert(broken_from(t, f, newline).len() == 0);
    }
    assert forall|m: int| 0 <= m < f implies !is_space(#[trigger] n[m]) by {
        assert(n[m] == t[m]);
    }
    lemma_first_space_is(t, 0);
    if f < t.len() {
        if is_break(t[f]) {
            assert(is_space(n[f]));
        } else {
            assert(n[f] == t[f]);
        }
    }
    lemma_first_space_to(n, 0, f);
    lemma_preserves_from(t, f, name, newline);
}

// ---------------------------------------------------------------------------------------
// Pieces
// ---------------------------------------------------------------------------------------

/// A piece with its line breaks written another way.
pub open spec fn rewritten(part: Part, newline: Seq<char>) -> Part {
    match part {
        Part::Open { name, text } => Part::Open { name, text: norm(text, newline) },
        Part::Close { name, text } => Part::Close { name, text: norm(text, newline) },
        Part::Whole(text) => Part::Whole(norm(text, newline)),
        Part::Text(text) => Part::Text(norm(text, newline)),
    }
}

/// A name with no white space in it.
pub open spec fn one_word(name: Seq<char>) -> bool {
    name.len() > 0 && forall|k: int| 0 <= k < name.len() ==> !is_space(#[trigger] name[k])
}

/// A piece of markup that some text begins with.
pub open spec fn cut_out(part: Part) -> bool {
    exists|s: Seq<char>|
        s.len() > 0 && s[0] == '<' && #[trigger] markup(s) == Ok::<(Part, int), Seq<char>>(
            (part, part.text().len() as int),
        )
}

/// The same, where a closing tag's name is one word.
pub open spec fn made(part: Part) -> bool {
    &&& cut_out(part)
    &&& part matches Part::Close { name, .. } ==> one_word(name)
}

/// Whether a piece is read at the start of any text it stands at the start of.
pub open spec fn reads(part: Part) -> bool {
    &&& part.text().len() > 0
    &&& part.text()[0] == '<'
    &&& part.text().last() == '>'
    &&& forall|rest: Seq<char>|
        #[trigger] markup(part.text() + rest) == Ok::<(Part, int), Seq<char>>(
            (part, part.text().len() as int),
        )
}

proof fn lemma_run_again(
    s: Seq<char>,
    end: Seq<char>,
    what: Seq<char>,
    part: Part,
    rest: Seq<char>,
    newline: Seq<char>,
)
    requires
        is_newline(newline),
        unbroken(end),
        end.len() > 0,
        run_to(s, end, what) == Ok::<(Part, int), Seq<char>>((part, part.text().len() as int)),
    ensures
        part is Whole,
        run_to(norm(part.text(), newline) + rest, end, what) == Ok::<(Part, int), Seq<char>>(
            (Part::Whole(norm(part.text(), newline)), norm(part.text(), newline).len() as int),
        ),
        ends(part.text(), end),
{
    let at = found(s, end, 0)->0;
    lemma_found(s, end, 0);
    let t = part.text();
    assert(t == s.subrange(0, at + end.len()));
    lemma_found_local(s, end, 0, at);
    lemma_found_again(t, end, 0, Seq::empty(), rest, newline);
    let b = norm(t, newline);
    assert(Seq::<char>::empty() + b + rest =~= b + rest);
    lemma_found(b + rest, end, 0);
    assert((b + rest).subrange(0, b.len() as int) =~= b);
    assert(t.subrange(at, at + end.len()) =~= s.subrange(at, at + end.len()));
}

/// A piece that ends in `>` begins as the text does that it is at the start of.
proof fn lemma_prefix(s: Seq<char>, t: Seq<char>, p: Seq<char>)
    requires
        0 < t.len() <= s.len(),
        t == s.subrange(0, t.len() as int),
        t.last() == '>',
        !p.contains('>'),
    ensures
        starts(t, p) == starts(s, p),
{
    if starts(s, p) {
        if p.len() > t.len() {
            assert(s.subrange(0, p.len() as int)[t.len() - 1] == p[t.len() - 1]);
            assert(t.last() == s[t.len() - 1]);
        }
        assert(t.subrange(0, p.len() as int) =~= s.subrange(0, p.len() as int));
    }
    if starts(t, p) {
        assert(t.subrange(0, p.len() as int) =~= s.subrange(0, p.len() as int));
    }
}

proof fn lemma_tag_part(part: Part, newline: Seq<char>)
    requires
        is_newline(newline),
        part.text().len() >= 2,
        part.text()[0] == '<',
        part.text().last() == '>',
        tag_part(part.text()) == Ok::<Part, Seq<char>>(part),
        part matches Part::Close { name, .. } ==> one_word(name),
    ensures
        tag_part(norm(part.text(), newline)) == Ok::<Part, Seq<char>>(rewritten(part, newline)),
{
    let t = part.text();
    let b = norm(t, newline);
    lemma_literals();
    lemma_starts_again(t, "<!"@, Seq::empty(), newline);
    lemma_starts_again(t, "</"@, Seq::empty(), newline);
    assert(b + Seq::<char>::empty() =~= b);
    lemma_ends_again(t, newline);
    lemma_open_name(t, newline);
    if part is Close {
        lemma_close_name(t, newline);
    }
}

/// A piece of markup reads as the same piece however the line breaks in it are written, and
/// whatever stands behind it.
#[verifier::rlimit(40)]
pub proof fn lemma_reads_again(part: Part, newline: Seq<char>)
    requires
        is_newline(newline),
        made(part),
    ensures
        reads(rewritten(part, newline)),
        !(part is Text),
        rewritten(part, newline).is_cdata() == part.is_cdata(),
        part.text().len() > 0 && part.text()[0] == '<' && part.text().last() == '>',
        part matches Part::Open { name, .. } ==> one_word(name),
{
    let s = choose|s: Seq<char>|
        s.len() > 0 && s[0] == '<' && #[trigger] markup(s) == Ok::<(Part, int), Seq<char>>(
            (part, part.text().len() as int),
        );
    let t = part.text();
    let b = norm(t, newline);
    lemma_markup(s);
    lemma_literals();
    assert(t == s.subrange(0, t.len() as int));
    assert(t[0] == s[0]);
    // The piece ends in an angle bracket, whichever it is.
    assert(t.last() == '>') by {
        if starts(s, "<!--"@) {
            lemma_run_again(s, "-->"@, "comment"@, part, Seq::empty(), newline);
            assert(t.subrange(t.len() - 3, t.len() as int)[2] == t.last());
        } else if starts(s, "<![CDATA["@) {
            lemma_run_again(s, "]]>"@, "CDATA section"@, part, Seq::empty(), newline);
            assert(t.subrange(t.len() - 3, t.len() as int)[2] == t.last());
        } else if starts(s, "<?"@) {
            lemma_run_again(s, "?>"@, "declaration"@, part, Seq::empty(), newline);
            assert(t.subrange(t.len() - 2, t.len() as int)[1] == t.last());
        } else {
            lemma_tag_end(s, 1, None, 0);
        }
    }
    lemma_first_char(t, 0, newline);
    lemma_last_char(t, newline);
    assert(starts(b, "<![CDATA["@) == starts(t, "<![CDATA["@)) by {
        lemma_starts_again(t, "<![CDATA["@, Seq::empty(), newline);
        assert(b + Seq::<char>::empty() =~= b);
    }
    assert forall|rest: Seq<char>|
        #[trigger] markup(b + rest) == Ok::<(Part, int), Seq<char>>(
            (rewritten(part, newline), b.len() as int),
        ) by {
        lemma_starts_again(t, "<!--"@, rest, newline);
        lemma_starts_again(t, "<![CDATA["@, rest, newline);
        lemma_starts_again(t, "<?"@, rest, newline);
        lemma_prefix(s, t, "<!--"@);
        lemma_prefix(s, t, "<![CDATA["@);
        lemma_prefix(s, t, "<?"@);
        if starts(s, "<!--"@) {
            lemma_run_again(s, "-->"@, "comment"@, part, rest, newline);
        } else if starts(s, "<![CDATA["@) {
            lemma_run_again(s, "]]>"@, "CDATA section"@, part, rest, newline);
        } else if starts(s, "<?"@) {
            lemma_run_again(s, "?>"@, "declaration"@, part, rest, newline);
        } else {
            lemma_tag_end(s, 1, None, 0);
            lemma_tag_local(s, 1, None, 0, t.len() as int);
            lemma_tag_again(t, 1, None, 0, seq!['<'], rest, newline);
            assert(seq!['<'] + broken_from(t, 1, newline) + rest =~= b + rest);
            assert((b + rest).subrange(0, b.len() as int) =~= b);
            lemma_tag_part(part, newline);
        }
    }
    if part is Open {
        lemma_open_name(t, newline);
    }
}

proof fn lemma_literals()
    ensures
        unbroken("<!--"@) && !("<!--"@).contains('>') && ("<!--"@).len() == 4,
        unbroken("<![CDATA["@) && !("<![CDATA["@).contains('>') && ("<![CDATA["@).len() == 9,
        unbroken("<?"@) && !("<?"@).contains('>') && ("<?"@).len() == 2,
        unbroken("<!"@) && !("<!"@).contains('>') && ("<!"@).len() == 2,
        unbroken("</"@) && !("</"@).contains('>') && ("</"@).len() == 2,
        unbroken("-->"@) && ("-->"@).len() == 3 && ("-->"@)[2] == '>',
        unbroken("]]>"@) && ("]]>"@).len() == 3 && ("]]>"@)[2] == '>',
        unbroken("?>"@) && ("?>"@).len() == 2 && ("?>"@)[1] == '>',
        ("<!--"@)[0] == '<' && ("<![CDATA["@)[0] == '<' && ("<?"@)[0] == '<',
        ("-->"@)[0] == '-' && ("]]>"@)[0] == ']' && ("?>"@)[0] == '?',
{
    reveal_strlit("<!--");
    reveal_strlit("<![CDATA[");
    reveal_strlit("<?");
    reveal_strlit("<!");
    reveal_strlit("</");
    reveal_strlit("-->");
    reveal_strlit("]]>");
    reveal_strlit("?>");
    assert("<!--"@ =~= seq!['<', '!', '-', '-']);
    assert("<![CDATA["@ =~= seq!['<', '!', '[', 'C', 'D', 'A', 'T', 'A', '[']);
    assert("<?"@ =~= seq!['<', '?']);
    assert("<!"@ =~= seq!['<', '!']);
    assert("</"@ =~= seq!['<', '/']);
    assert("-->"@ =~= seq!['-', '-', '>']);
    assert("]]>"@ =~= seq![']', ']', '>']);
    assert("?>"@ =~= seq!['?', '>']);
}

} // verus!
