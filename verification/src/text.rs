//! Text as a sequence of characters: searching, trimming, joining and counting.

use vstd::prelude::*;
use vstd::slice::slice_subrange;

verus! {

/// `String::push` appends one character to the text.
pub assume_specification[ String::push ](text: &mut String, c: char)
    ensures
        final(text)@ == old(text)@.push(c),
;

// ---------------------------------------------------------------------------------------
// White space
// ---------------------------------------------------------------------------------------

/// The characters with Unicode's `White_Space` property.
pub open spec fn is_space(c: char) -> bool {
    let n = c as u32;
    ||| 0x9 <= n <= 0xd
    ||| n == 0x20
    ||| n == 0x85
    ||| n == 0xa0
    ||| n == 0x1680
    ||| 0x2000 <= n <= 0x200a
    ||| n == 0x2028
    ||| n == 0x2029
    ||| n == 0x202f
    ||| n == 0x205f
    ||| n == 0x3000
}

/// Nothing but white space.
pub open spec fn blank(s: Seq<char>) -> bool {
    forall|i: int| 0 <= i < s.len() ==> is_space(#[trigger] s[i])
}

/// The first position from `i` on that is not white space, or the end.
pub open spec fn skip_space(s: Seq<char>, i: int) -> int
    decreases s.len() - i,
{
    if 0 <= i < s.len() && is_space(s[i]) {
        skip_space(s, i + 1)
    } else {
        i
    }
}

/// Where the white space that ends at `i` begins.
pub open spec fn space_before(s: Seq<char>, i: int) -> int
    decreases i,
{
    if 0 < i <= s.len() && is_space(s[i - 1]) {
        space_before(s, i - 1)
    } else {
        i
    }
}

/// The first position from `i` on that holds white space, or the end.
pub open spec fn first_space(s: Seq<char>, i: int) -> int
    decreases s.len() - i,
{
    if i >= s.len() {
        s.len() as int
    } else if is_space(s[i]) {
        i
    } else {
        first_space(s, i + 1)
    }
}

pub open spec fn trimmed_start(s: Seq<char>) -> Seq<char> {
    s.subrange(skip_space(s, 0), s.len() as int)
}

pub open spec fn trimmed_end(s: Seq<char>) -> Seq<char> {
    s.subrange(0, space_before(s, s.len() as int))
}

/// The text without the white space around it.
pub open spec fn trimmed(s: Seq<char>) -> Seq<char> {
    trimmed_end(trimmed_start(s))
}

pub fn whitespace(c: char) -> (r: bool)
    ensures
        r == is_space(c),
{
    let n: u32 = c as u32;
    (0x9 <= n && n <= 0xd) || n == 0x20 || n == 0x85 || n == 0xa0 || n == 0x1680 || (0x2000 <= n
        && n <= 0x200a) || n == 0x2028 || n == 0x2029 || n == 0x202f || n == 0x205f || n == 0x3000
}

pub proof fn lemma_skip_space(s: Seq<char>, i: int)
    requires
        0 <= i <= s.len(),
    ensures
        i <= skip_space(s, i) <= s.len(),
        blank(s.subrange(i, skip_space(s, i))),
        skip_space(s, i) < s.len() ==> !is_space(s[skip_space(s, i)]),
    decreases s.len() - i,
{
    if i < s.len() && is_space(s[i]) {
        lemma_skip_space(s, i + 1);
        let end = skip_space(s, i + 1);
        assert forall|k: int| 0 <= k < s.subrange(i, end).len() implies is_space(
            #[trigger] s.subrange(i, end)[k],
        ) by {
            if k > 0 {
                assert(s.subrange(i + 1, end)[k - 1] == s.subrange(i, end)[k]);
            }
        }
    }
}

pub proof fn lemma_space_before(s: Seq<char>, i: int)
    requires
        0 <= i <= s.len(),
    ensures
        0 <= space_before(s, i) <= i,
        blank(s.subrange(space_before(s, i), i)),
        space_before(s, i) > 0 ==> !is_space(s[space_before(s, i) - 1]),
    decreases i,
{
    if 0 < i && is_space(s[i - 1]) {
        lemma_space_before(s, i - 1);
        let at = space_before(s, i - 1);
        assert forall|k: int| 0 <= k < s.subrange(at, i).len() implies is_space(
            #[trigger] s.subrange(at, i)[k],
        ) by {
            if k < i - 1 - at {
                assert(s.subrange(at, i - 1)[k] == s.subrange(at, i)[k]);
            }
        }
    }
}

/// Where the white space from `from` on ends.
pub fn past_space(s: &[char], from: usize) -> (r: usize)
    requires
        from <= s@.len(),
    ensures
        r == skip_space(s@, from as int),
        from <= r <= s@.len(),
{
    let mut i: usize = from;
    while i < s.len() && whitespace(s[i])
        invariant
            from <= i <= s@.len(),
            skip_space(s@, from as int) == skip_space(s@, i as int),
        decreases s@.len() - i,
    {
        i = i + 1;
    }
    i
}

pub proof fn lemma_first_space(s: Seq<char>, i: int)
    requires
        0 <= i <= s.len(),
    ensures
        i <= first_space(s, i) <= s.len(),
        i < s.len() && !is_space(s[i]) ==> i < first_space(s, i),
    decreases s.len() - i,
{
    if i < s.len() && !is_space(s[i]) {
        lemma_first_space(s, i + 1);
    }
}

/// Where the next white space from `from` on stands, or the end.
pub fn next_space(s: &[char], from: usize) -> (r: usize)
    requires
        from <= s@.len(),
    ensures
        r == first_space(s@, from as int),
        from <= r <= s@.len(),
{
    let mut i: usize = from;
    while i < s.len() && !whitespace(s[i])
        invariant
            from <= i <= s@.len(),
            first_space(s@, from as int) == first_space(s@, i as int),
        decreases s@.len() - i,
    {
        i = i + 1;
    }
    i
}

pub fn trim_start(s: &[char]) -> (r: &[char])
    ensures
        r@ == trimmed_start(s@),
{
    let at: usize = past_space(s, 0);
    slice_subrange(s, at, s.len())
}

pub fn trim_end(s: &[char]) -> (r: &[char])
    ensures
        r@ == trimmed_end(s@),
{
    let mut i: usize = s.len();
    while i > 0 && whitespace(s[i - 1])
        invariant
            i <= s@.len(),
            space_before(s@, s@.len() as int) == space_before(s@, i as int),
        decreases i,
    {
        i = i - 1;
    }
    slice_subrange(s, 0, i)
}

pub fn trim(s: &[char]) -> (r: &[char])
    ensures
        r@ == trimmed(s@),
{
    trim_end(trim_start(s))
}

pub fn is_blank(s: &[char]) -> (r: bool)
    ensures
        r == blank(s@),
{
    let at: usize = past_space(s, 0);
    proof {
        lemma_skip_space(s@, 0);
        assert(s@.subrange(0, s@.len() as int) =~= s@);
    }
    at == s.len()
}

/// What of the text is not white space.
pub open spec fn ink(s: Seq<char>) -> Seq<char>
    decreases s.len(),
{
    if s.len() == 0 {
        Seq::empty()
    } else if is_space(s.last()) {
        ink(s.drop_last())
    } else {
        ink(s.drop_last()).push(s.last())
    }
}

pub proof fn lemma_ink_joined(a: Seq<char>, b: Seq<char>)
    ensures
        ink(a + b) == ink(a) + ink(b),
    decreases b.len(),
{
    if b.len() == 0 {
        assert(a + b =~= a);
        assert(ink(a) + Seq::<char>::empty() =~= ink(a));
    } else {
        lemma_ink_joined(a, b.drop_last());
        assert((a + b).drop_last() =~= a + b.drop_last());
        assert(ink(a + b) =~= ink(a) + ink(b));
    }
}

pub proof fn lemma_ink_blank(s: Seq<char>)
    requires
        blank(s),
    ensures
        ink(s) == Seq::<char>::empty(),
    decreases s.len(),
{
    if s.len() > 0 {
        assert(is_space(s[s.len() - 1]));
        assert(blank(s.drop_last())) by {
            assert forall|i: int| 0 <= i < s.drop_last().len() implies is_space(
                #[trigger] s.drop_last()[i],
            ) by {
                assert(is_space(s[i]));
            }
        }
        lemma_ink_blank(s.drop_last());
    }
}

pub proof fn lemma_ink_one(c: char)
    ensures
        ink(seq![c]) == if is_space(c) {
            Seq::<char>::empty()
        } else {
            seq![c]
        },
{
    assert(seq![c].drop_last() =~= Seq::<char>::empty());
    assert(ink(seq![c].drop_last()) == Seq::<char>::empty());
    assert(seq![c].last() == c);
    assert(Seq::<char>::empty().push(c) =~= seq![c]);
}

// ---------------------------------------------------------------------------------------
// Searching
// ---------------------------------------------------------------------------------------

/// The first position from `from` on that holds `c`, or the end.
pub open spec fn first(s: Seq<char>, c: char, from: int) -> int
    decreases s.len() - from,
{
    if from >= s.len() {
        s.len() as int
    } else if s[from] == c {
        from
    } else {
        first(s, c, from + 1)
    }
}

/// Whether `part` stands in `s` at `at`.
pub open spec fn stands_at(s: Seq<char>, part: Seq<char>, at: int) -> bool {
    &&& 0 <= at
    &&& at + part.len() <= s.len()
    &&& s.subrange(at, at + part.len()) == part
}

pub open spec fn starts(s: Seq<char>, part: Seq<char>) -> bool {
    stands_at(s, part, 0)
}

pub open spec fn ends(s: Seq<char>, part: Seq<char>) -> bool {
    stands_at(s, part, s.len() - part.len())
}

/// The first position from `from` on where `part` stands.
pub open spec fn found(s: Seq<char>, part: Seq<char>, from: int) -> Option<int>
    decreases s.len() + 1 - from,
{
    if from + part.len() > s.len() {
        None
    } else if stands_at(s, part, from) {
        Some(from)
    } else {
        found(s, part, from + 1)
    }
}

pub proof fn lemma_first(s: Seq<char>, c: char, from: int)
    requires
        0 <= from <= s.len(),
    ensures
        from <= first(s, c, from) <= s.len(),
        first(s, c, from) < s.len() ==> s[first(s, c, from)] == c,
        forall|i: int| from <= i < first(s, c, from) ==> s[i] != c,
    decreases s.len() - from,
{
    if from < s.len() && s[from] != c {
        lemma_first(s, c, from + 1);
    }
}

pub proof fn lemma_found(s: Seq<char>, part: Seq<char>, from: int)
    requires
        0 <= from,
    ensures
        found(s, part, from) matches Some(at) ==> from <= at && stands_at(s, part, at),
    decreases s.len() + 1 - from,
{
    if from + part.len() <= s.len() && !stands_at(s, part, from) {
        lemma_found(s, part, from + 1);
    }
}

pub fn find(s: &[char], c: char, from: usize) -> (r: usize)
    requires
        from <= s@.len(),
    ensures
        r == first(s@, c, from as int),
        from <= r <= s@.len(),
        r < s@.len() ==> s@[r as int] == c,
{
    let mut i: usize = from;
    while i < s.len() && s[i] != c
        invariant
            from <= i <= s@.len(),
            first(s@, c, from as int) == first(s@, c, i as int),
        decreases s@.len() - i,
    {
        i = i + 1;
    }
    i
}

pub fn has(s: &[char], c: char) -> (r: bool)
    ensures
        r == s@.contains(c),
{
    let at: usize = find(s, c, 0);
    proof {
        lemma_first(s@, c, 0);
    }
    at < s.len()
}

/// Whether `part` stands in `s` at `at`.
pub fn matches_at(s: &[char], part: &[char], at: usize) -> (r: bool)
    ensures
        r == stands_at(s@, part@, at as int),
{
    if at > s.len() || part.len() > s.len() - at {
        return false;
    }
    let mut i: usize = 0;
    while i < part.len()
        invariant
            i <= part@.len(),
            at + part@.len() <= s.len(),
            forall|k: int| 0 <= k < i ==> s@[at + k] == part@[k],
        decreases part@.len() - i,
    {
        if s[at + i] != part[i] {
            proof {
                assert(s@.subrange(at as int, at + part@.len())[i as int] == s@[at + i]);
            }
            return false;
        }
        i = i + 1;
    }
    proof {
        assert(s@.subrange(at as int, at + part@.len()) =~= part@);
    }
    true
}

pub fn same(a: &[char], b: &[char]) -> (r: bool)
    ensures
        r == (a@ == b@),
{
    if a.len() != b.len() {
        return false;
    }
    let r: bool = matches_at(a, b, 0);
    proof {
        assert(a@.subrange(0, a@.len() as int) =~= a@);
    }
    r
}

/// Whether the text is `literal`.
pub fn is(s: &[char], literal: &str) -> (r: bool)
    ensures
        r == (s@ == literal@),
{
    let literal: Vec<char> = chars(literal);
    same(s, literal.as_slice())
}

pub fn same_str(a: &str, b: &str) -> (r: bool)
    ensures
        r == (a@ == b@),
{
    let a: Vec<char> = chars(a);
    is(a.as_slice(), b)
}

pub fn starts_with(s: &[char], literal: &str) -> (r: bool)
    ensures
        r == starts(s@, literal@),
{
    let literal: Vec<char> = chars(literal);
    matches_at(s, literal.as_slice(), 0)
}

pub fn ends_with(s: &[char], literal: &str) -> (r: bool)
    ensures
        r == ends(s@, literal@),
{
    let literal: Vec<char> = chars(literal);
    if literal.len() > s.len() {
        return false;
    }
    matches_at(s, literal.as_slice(), s.len() - literal.len())
}

pub fn find_text(s: &[char], part: &[char], from: usize) -> (r: Option<usize>)
    ensures
        match r {
            Some(at) => found(s@, part@, from as int) == Some(at as int) && from <= at && at
                + part@.len() <= s@.len(),
            None => found(s@, part@, from as int) is None,
        },
{
    let mut i: usize = from;
    while i <= s.len() && part.len() <= s.len() - i
        invariant
            from <= i,
            found(s@, part@, from as int) == found(s@, part@, i as int),
        decreases s@.len() + 1 - i,
    {
        if matches_at(s, part, i) {
            return Some(i);
        }
        proof {
            assert(part@.len() == 0 ==> s@.subrange(i as int, i as int) =~= part@);
        }
        i = i + 1;
    }
    None
}

// ---------------------------------------------------------------------------------------
// Putting text together
// ---------------------------------------------------------------------------------------

/// `part`, `n` times over.
pub open spec fn repeated(part: Seq<char>, n: nat) -> Seq<char>
    decreases n,
{
    if n == 0 {
        Seq::empty()
    } else {
        repeated(part, (n - 1) as nat) + part
    }
}

pub fn chars(s: &str) -> (r: Vec<char>)
    ensures
        r@ == s@,
{
    let mut out: Vec<char> = Vec::new();
    for c in it: s.chars()
        invariant
            it.seq() == s@,
            out@ == s@.take(it.index() as int),
    {
        out.push(c);
        proof {
            assert(out@ =~= s@.take(it.index() as int + 1));
        }
    }
    proof {
        assert(s@.take(s@.len() as int) =~= s@);
    }
    out
}

pub fn string(s: &[char]) -> (r: String)
    ensures
        r@ == s@,
{
    let mut out: String = String::new();
    let mut i: usize = 0;
    while i < s.len()
        invariant
            i <= s@.len(),
            out@ == s@.take(i as int),
        decreases s@.len() - i,
    {
        out.push(s[i]);
        i = i + 1;
        proof {
            assert(out@ =~= s@.take(i as int));
        }
    }
    proof {
        assert(s@.take(s@.len() as int) =~= s@);
    }
    out
}

pub fn append(out: &mut Vec<char>, s: &[char])
    ensures
        final(out)@ == old(out)@ + s@,
{
    let ghost before = out@;
    let mut i: usize = 0;
    while i < s.len()
        invariant
            i <= s@.len(),
            out@ == before + s@.take(i as int),
        decreases s@.len() - i,
    {
        out.push(s[i]);
        i = i + 1;
        proof {
            assert(out@ =~= before + s@.take(i as int));
        }
    }
    proof {
        assert(s@.take(s@.len() as int) =~= s@);
    }
}

pub fn append_str(out: &mut Vec<char>, s: &str)
    ensures
        final(out)@ == old(out)@ + s@,
{
    let s: Vec<char> = chars(s);
    append(out, s.as_slice());
}

pub fn append_repeated(out: &mut Vec<char>, part: &[char], n: usize)
    ensures
        final(out)@ == old(out)@ + repeated(part@, n as nat),
{
    let ghost before = out@;
    let mut i: usize = 0;
    proof {
        assert(before + repeated(part@, 0) =~= before);
    }
    while i < n
        invariant
            i <= n,
            out@ == before + repeated(part@, i as nat),
        decreases n - i,
    {
        append(out, part);
        i = i + 1;
        proof {
            assert(out@ =~= before + repeated(part@, i as nat));
        }
    }
}

/// The texts one after the other, `separator` between each two.
pub open spec fn joined(parts: Seq<Seq<char>>, separator: Seq<char>) -> Seq<char>
    decreases parts.len(),
{
    if parts.len() == 0 {
        Seq::empty()
    } else if parts.len() == 1 {
        parts[0]
    } else {
        joined(parts.drop_last(), separator) + separator + parts.last()
    }
}

pub fn join(parts: &Vec<String>, separator: &str) -> (r: String)
    ensures
        r@ == joined(parts.deep_view(), separator@),
{
    let ghost all = parts.deep_view();
    let mut text: Vec<char> = Vec::new();
    let mut n: usize = 0;
    proof {
        assert(all.take(0) =~= Seq::empty());
    }
    while n < parts.len()
        invariant
            n <= parts@.len(),
            all == parts.deep_view(),
            text@ == joined(all.take(n as int), separator@),
        decreases parts@.len() - n,
    {
        proof {
            assert(all.take(n + 1).drop_last() =~= all.take(n as int));
            assert(all.take(n + 1).last() == parts@[n as int]@);
        }
        if n > 0 {
            append_str(&mut text, separator);
        }
        append_str(&mut text, parts[n].as_str());
        n = n + 1;
        proof {
            assert(text@ =~= joined(all.take(n as int), separator@));
        }
    }
    proof {
        assert(all.take(n as int) =~= all);
    }
    string(text.as_slice())
}

pub open spec fn digit(n: nat) -> char {
    (('0' as u32) + n) as char
}

/// A number as it is written in decimal.
pub open spec fn decimal(n: nat) -> Seq<char>
    decreases n,
{
    if n < 10 {
        seq![digit(n)]
    } else {
        decimal(n / 10).push(digit(n % 10))
    }
}

fn digit_char(n: u64) -> (r: char)
    requires
        n < 10,
    ensures
        r == digit(n as nat),
{
    match n {
        0 => '0',
        1 => '1',
        2 => '2',
        3 => '3',
        4 => '4',
        5 => '5',
        6 => '6',
        7 => '7',
        8 => '8',
        _ => '9',
    }
}

pub fn write_number(out: &mut Vec<char>, n: u64)
    ensures
        final(out)@ == old(out)@ + decimal(n as nat),
    decreases n,
{
    let ghost before = out@;
    if n < 10 {
        out.push(digit_char(n));
    } else {
        write_number(out, n / 10);
        out.push(digit_char(n % 10));
    }
    proof {
        assert(out@ =~= before + decimal(n as nat));
    }
}

// ---------------------------------------------------------------------------------------
// Letters
// ---------------------------------------------------------------------------------------

pub open spec fn is_upper_ascii(c: char) -> bool {
    'A' <= c <= 'Z'
}

pub open spec fn is_alnum_ascii(c: char) -> bool {
    'A' <= c <= 'Z' || 'a' <= c <= 'z' || '0' <= c <= '9'
}

/// An ASCII capital as its small letter; any other character as it is.
pub open spec fn lower_ascii(c: char) -> char {
    if is_upper_ascii(c) {
        ((c as u32) + 32) as char
    } else {
        c
    }
}

pub open spec fn is_ascii(c: char) -> bool {
    (c as u32) <= 0x7f
}

/// Whether Unicode calls the character a letter or a number.
pub uninterp spec fn alphanumeric(c: char) -> bool;

/// `char::is_alphanumeric`: whether Unicode calls the character a letter or a number.
#[verifier::external_body]
pub(crate) fn is_alphanumeric(c: char) -> (r: bool)
    ensures
        r == alphanumeric(c),
{
    c.is_alphanumeric()
}

pub fn alnum_ascii(c: char) -> (r: bool)
    ensures
        r == is_alnum_ascii(c),
{
    ('A' <= c && c <= 'Z') || ('a' <= c && c <= 'z') || ('0' <= c && c <= '9')
}

pub fn to_lower_ascii(c: char) -> (r: char)
    ensures
        r == lower_ascii(c),
{
    if 'A' <= c && c <= 'Z' {
        ((c as u8) + 32) as char
    } else {
        c
    }
}

/// A text in small letters, as Unicode has them.
pub uninterp spec fn lowercase_of(s: Seq<char>) -> Seq<char>;

/// `str::to_lowercase`: the text in small letters, as Unicode has them.
#[verifier::external_body]
pub(crate) fn to_lowercase(s: &str) -> (r: String)
    ensures
        r@ == lowercase_of(s@),
{
    s.to_lowercase()
}

pub fn copy_texts(texts: &Vec<String>) -> (r: Vec<String>)
    ensures
        r.deep_view() == texts.deep_view(),
{
    let mut copies: Vec<String> = Vec::new();
    let mut n: usize = 0;
    while n < texts.len()
        invariant
            n <= texts@.len(),
            copies@.len() == n,
            forall|i: int| 0 <= i < n ==> (#[trigger] copies@[i])@ == texts@[i]@,
        decreases texts@.len() - n,
    {
        copies.push(texts[n].clone());
        n = n + 1;
    }
    proof {
        assert(copies.deep_view() =~= texts.deep_view());
    }
    copies
}

// ---------------------------------------------------------------------------------------
// Replacing
// ---------------------------------------------------------------------------------------

/// The text from `i` on with `to` wherever `part` stood, from left to right.
pub open spec fn replaced_from(s: Seq<char>, i: int, part: Seq<char>, to: Seq<char>) -> Seq<char>
    decreases s.len() - i,
{
    if i >= s.len() {
        Seq::empty()
    } else if part.len() > 0 && stands_at(s, part, i) {
        to + replaced_from(s, i + part.len(), part, to)
    } else {
        seq![s[i]] + replaced_from(s, i + 1, part, to)
    }
}

/// The text with `to` wherever `part` stood.
pub open spec fn replaced(s: Seq<char>, part: Seq<char>, to: Seq<char>) -> Seq<char> {
    replaced_from(s, 0, part, to)
}

pub fn replace(s: &[char], part: &str, to: &str) -> (r: Vec<char>)
    requires
        part@.len() > 0,
    ensures
        r@ == replaced(s@, part@, to@),
{
    let part: Vec<char> = chars(part);
    let to: Vec<char> = chars(to);
    let mut out: Vec<char> = Vec::new();
    let mut i: usize = 0;
    proof {
        assert(Seq::<char>::empty() + replaced(s@, part@, to@) =~= replaced(s@, part@, to@));
    }
    while i < s.len()
        invariant
            i <= s.len(),
            part@.len() > 0,
            out@ + replaced_from(s@, i as int, part@, to@) == replaced(s@, part@, to@),
        decreases s@.len() - i,
    {
        let ghost before = out@;
        let ghost rest = replaced_from(s@, i as int, part@, to@);
        if matches_at(s, part.as_slice(), i) {
            append(&mut out, to.as_slice());
            i = i + part.len();
        } else {
            out.push(s[i]);
            i = i + 1;
        }
        proof {
            assert(out@ + replaced_from(s@, i as int, part@, to@) =~= before + rest);
        }
    }
    proof {
        assert(out@ + Seq::<char>::empty() =~= out@);
    }
    out
}

} // verus!
