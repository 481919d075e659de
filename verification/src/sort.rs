//! Texts put in order.

use crate::text::same;
use vstd::prelude::*;

verus! {

/// Whether a text comes before another, character by character, from the `i`th on.
pub open spec fn before_from(a: Seq<char>, b: Seq<char>, i: int) -> bool
    decreases b.len() - i,
{
    if i >= b.len() {
        false
    } else if i >= a.len() {
        true
    } else if a[i] != b[i] {
        a[i] < b[i]
    } else {
        before_from(a, b, i + 1)
    }
}

/// Whether a text comes before another.
pub open spec fn before(a: Seq<char>, b: Seq<char>) -> bool {
    before_from(a, b, 0)
}

/// What is put in order: a text, and another where the first are alike.
pub type SortKey = (Vec<char>, Vec<char>);

pub type SortKeyView = (Seq<char>, Seq<char>);

pub open spec fn key_view(key: SortKey) -> SortKeyView {
    (key.0@, key.1@)
}

pub open spec fn key_views(keys: Seq<SortKey>) -> Seq<SortKeyView> {
    keys.map_values(|key: SortKey| key_view(key))
}

pub open spec fn key_before(a: SortKeyView, b: SortKeyView) -> bool {
    before(a.0, b.0) || (a.0 == b.0 && before(a.1, b.1))
}

/// Where the thing numbered `new` goes among those that are in order, from place `p` on:
/// in front of the first it comes before.
pub open spec fn place_for(keys: Seq<SortKeyView>, order: Seq<usize>, new: int, p: int) -> int
    decreases order.len() - p,
{
    if p >= order.len() {
        order.len() as int
    } else if key_before(keys[new], keys[order[p] as int]) {
        p
    } else {
        place_for(keys, order, new, p + 1)
    }
}

/// The numbers of the first `n` things, put in order: things that are alike stay in the
/// order they came in.
pub open spec fn order_of(keys: Seq<SortKeyView>, n: nat) -> Seq<usize>
    decreases n,
{
    if n == 0 {
        Seq::empty()
    } else {
        let order = order_of(keys, (n - 1) as nat);
        order.insert(place_for(keys, order, n - 1, 0), (n - 1) as usize)
    }
}

pub fn comes_before(a: &[char], b: &[char]) -> (r: bool)
    ensures
        r == before(a@, b@),
{
    let mut i: usize = 0;
    while i < b.len()
        invariant
            i <= b@.len(),
            i <= a@.len(),
            before(a@, b@) == before_from(a@, b@, i as int),
        decreases b@.len() - i,
    {
        if i >= a.len() {
            return true;
        }
        if a[i] != b[i] {
            return a[i] < b[i];
        }
        i = i + 1;
    }
    false
}

fn key_comes_before(a: &SortKey, b: &SortKey) -> (r: bool)
    ensures
        r == key_before(key_view(*a), key_view(*b)),
{
    comes_before(a.0.as_slice(), b.0.as_slice()) || (same(a.0.as_slice(), b.0.as_slice())
        && comes_before(a.1.as_slice(), b.1.as_slice()))
}

/// The numbers of things, put in order by their keys.
pub fn put_in_order(keys: &Vec<SortKey>) -> (r: Vec<usize>)
    ensures
        r@ == order_of(key_views(keys@), keys@.len()),
        r@.len() == keys@.len(),
        forall|i: int| 0 <= i < r@.len() ==> (#[trigger] r@[i]) < keys@.len(),
{
    let ghost all = key_views(keys@);
    let mut order: Vec<usize> = Vec::new();
    let mut n: usize = 0;
    while n < keys.len()
        invariant
            n <= keys@.len(),
            all == key_views(keys@),
            order@ == order_of(all, n as nat),
            order@.len() == n,
            forall|i: int| 0 <= i < order@.len() ==> (#[trigger] order@[i]) < n,
        decreases keys@.len() - n,
    {
        let ghost was = order@;
        let mut p: usize = 0;
        while p < order.len() && !key_comes_before(&keys[n], &keys[order[p]])
            invariant
                n < keys@.len(),
                p <= order@.len(),
                all == key_views(keys@),
                forall|i: int| 0 <= i < order@.len() ==> (#[trigger] order@[i]) < n,
                place_for(all, order@, n as int, 0) == place_for(all, order@, n as int, p as int),
            decreases order@.len() - p,
        {
            p = p + 1;
        }
        order.insert(p, n);
        n = n + 1;
        proof {
            assert forall|i: int| 0 <= i < order@.len() implies (#[trigger] order@[i]) < n by {
                if i < p {
                    assert(order@[i] == was[i]);
                } else if i > p {
                    assert(order@[i] == was[i - 1]);
                }
            }
        }
    }
    order
}

// ---------------------------------------------------------------------------------------
// What putting in order keeps
// ---------------------------------------------------------------------------------------

proof fn lemma_before_antisymmetric(a: Seq<char>, b: Seq<char>, i: int)
    requires
        0 <= i,
        before_from(a, b, i),
    ensures
        !before_from(b, a, i),
    decreases b.len() - i,
{
    if i < a.len() && a[i] == b[i] {
        lemma_before_antisymmetric(a, b, i + 1);
    }
}

proof fn lemma_before_total(a: Seq<char>, b: Seq<char>, i: int)
    requires
        0 <= i <= a.len(),
        i <= b.len(),
        !before_from(a, b, i),
        !before_from(b, a, i),
        a.subrange(0, i) == b.subrange(0, i),
    ensures
        a == b,
    decreases b.len() - i,
{
    if i < b.len() && i < a.len() {
        assert(a[i] == b[i]);
        assert(a.subrange(0, i + 1) =~= a.subrange(0, i).push(a[i]));
        assert(b.subrange(0, i + 1) =~= b.subrange(0, i).push(b[i]));
        lemma_before_total(a, b, i + 1);
    } else {
        assert(a.len() == b.len());
        assert(a.subrange(0, i) =~= a);
        assert(b.subrange(0, i) =~= b);
    }
}

proof fn lemma_before_transitive(a: Seq<char>, b: Seq<char>, c: Seq<char>, i: int)
    requires
        0 <= i,
        before_from(a, b, i),
        before_from(b, c, i),
    ensures
        before_from(a, c, i),
    decreases c.len() - i,
{
    if i < a.len() && i < b.len() && i < c.len() && a[i] == b[i] && b[i] == c[i] {
        lemma_before_transitive(a, b, c, i + 1);
    }
}

proof fn lemma_key_order(a: SortKeyView, b: SortKeyView, c: SortKeyView)
    ensures
        !key_before(a, a),
        key_before(a, b) ==> !key_before(b, a),
        // What is not before comes after or is alike, and that carries over.
        !key_before(b, a) && !key_before(c, b) ==> !key_before(c, a),
{
    if before(a.0, a.0) {
        lemma_before_antisymmetric(a.0, a.0, 0);
    }
    if before(a.1, a.1) {
        lemma_before_antisymmetric(a.1, a.1, 0);
    }
    if before(a.0, b.0) {
        lemma_before_antisymmetric(a.0, b.0, 0);
    }
    if before(a.1, b.1) {
        lemma_before_antisymmetric(a.1, b.1, 0);
    }
    if key_before(a, b) && key_before(b, a) {
        if before(b.0, a.0) {
            lemma_before_antisymmetric(b.0, a.0, 0);
        }
        if before(b.0, b.0) {
            lemma_before_antisymmetric(b.0, b.0, 0);
        }
    }
    if !key_before(b, a) && !key_before(c, b) && key_before(c, a) {
        lemma_not_after(c, b, a);
    }
}

/// Of three keys where the first comes before the last, the one between them comes behind
/// the first or in front of the last.
proof fn lemma_not_after(c: SortKeyView, b: SortKeyView, a: SortKeyView)
    requires
        key_before(c, a),
    ensures
        key_before(c, b) || key_before(b, a),
{
    lemma_split(c.0, b.0, a.0);
    lemma_split(c.1, b.1, a.1);
}

proof fn lemma_split(c: Seq<char>, b: Seq<char>, a: Seq<char>)
    ensures
        before(c, a) ==> before(c, b) || before(b, a),
        c == a && c != b ==> before(c, b) || before(b, a),
        before(c, a) && c == b ==> before(b, a),
        before(c, a) && b == a ==> before(c, b),
        c == b || before(c, b) || before(b, c),
        a == b || before(a, b) || before(b, a),
        before(b, c) && before(c, a) ==> before(b, a),
        before(c, a) && before(a, b) ==> before(c, b),
{
    assert(c.subrange(0, 0) =~= b.subrange(0, 0));
    assert(a.subrange(0, 0) =~= b.subrange(0, 0));
    if !before(c, b) && !before(b, c) {
        lemma_before_total(c, b, 0);
    }
    if !before(a, b) && !before(b, a) {
        lemma_before_total(a, b, 0);
    }
    if before(b, c) && before(c, a) {
        lemma_before_transitive(b, c, a, 0);
    }
    if before(c, a) && before(a, b) {
        lemma_before_transitive(c, a, b, 0);
    }
}

/// Each thing of an order stands no later than those behind it, and things that are alike
/// stand in the order they came in.
pub open spec fn in_order(keys: Seq<SortKeyView>, order: Seq<usize>) -> bool {
    forall|i: int, j: int|
        0 <= i < j < order.len() ==> {
            let (a, b) = (#[trigger] order[i], #[trigger] order[j]);
            !key_before(keys[b as int], keys[a as int]) && (key_before(
                keys[a as int],
                keys[b as int],
            ) || a < b)
        }
}

proof fn lemma_place(keys: Seq<SortKeyView>, order: Seq<usize>, new: int, p: int)
    requires
        0 <= p <= order.len(),
    ensures
        p <= place_for(keys, order, new, p) <= order.len(),
        forall|i: int|
            p <= i < place_for(keys, order, new, p) ==> !key_before(
                keys[new],
                keys[#[trigger] order[i] as int],
            ),
        place_for(keys, order, new, p) < order.len() ==> key_before(
            keys[new],
            keys[order[place_for(keys, order, new, p)] as int],
        ),
    decreases order.len() - p,
{
    if p < order.len() && !key_before(keys[new], keys[order[p] as int]) {
        lemma_place(keys, order, new, p + 1);
    }
}

/// Putting things in order puts them in order, keeps each of them and leaves those that
/// are alike as they came.
pub proof fn putting_in_order_is_sorting(keys: Seq<SortKeyView>, n: nat)
    requires
        n <= keys.len() <= usize::MAX,
    ensures
        order_of(keys, n).len() == n,
        in_order(keys, order_of(keys, n)),
        forall|i: int| 0 <= i < n ==> (#[trigger] order_of(keys, n)[i]) < n,
        forall|k: int| 0 <= k < n ==> order_of(keys, n).contains(#[trigger] (k as usize)),
    decreases n,
{
    if n > 0 {
        let was = order_of(keys, (n - 1) as nat);
        let new = n - 1;
        putting_in_order_is_sorting(keys, (n - 1) as nat);
        lemma_place(keys, was, new, 0);
        let p = place_for(keys, was, new, 0);
        let order = order_of(keys, n);
        assert forall|i: int| 0 <= i < n implies (#[trigger] order[i]) < n by {
            if i < p {
                assert(order[i] == was[i]);
            } else if i > p {
                assert(order[i] == was[i - 1]);
            }
        }
        assert forall|k: int| 0 <= k < n implies order.contains(#[trigger] (k as usize)) by {
            if k == new {
                assert(order[p] == k as usize);
            } else {
                let i = choose|i: int| 0 <= i < was.len() && was[i] == k as usize;
                if i < p {
                    assert(order[i] == k as usize);
                } else {
                    assert(order[i + 1] == k as usize);
                }
            }
        }
        assert forall|i: int, j: int| 0 <= i < j < order.len() implies {
            let (a, b) = (#[trigger] order[i], #[trigger] order[j]);
            !key_before(keys[b as int], keys[a as int]) && (key_before(
                keys[a as int],
                keys[b as int],
            ) || a < b)
        } by {
            let wi = if i < p {
                i
            } else {
                i - 1
            };
            let wj = if j < p {
                j
            } else {
                j - 1
            };
            if i != p && j != p {
                assert(order[i] == was[wi]);
                assert(order[j] == was[wj]);
            } else if j == p {
                // The new one stands behind one it does not come before.
                assert(order[i] == was[i]);
                lemma_key_order(
                    keys[was[i] as int],
                    keys[new],
                    keys[new],
                );
            } else {
                assert(order[j] == was[wj]);
                if wj > p {
                    assert(!key_before(keys[was[wj] as int], keys[was[p] as int]));
                    lemma_key_order(keys[new], keys[was[p] as int], keys[was[wj] as int]);
                    lemma_not_after(keys[new], keys[was[wj] as int], keys[was[p] as int]);
                } else {
                    lemma_key_order(keys[new], keys[was[p] as int], keys[new]);
                }
            }
        }
    }
}

} // verus!
