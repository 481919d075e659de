//! What a search is asked for by what was typed.

use crate::picker::panel::{changes, fields_shown, filtering, inputs, is_shown, marked_from,
    on_named, pattern_for, text_named, ColumnView, FieldView, QueryView, ToggleView};
use crate::text::{first_space, is_space};
use vstd::prelude::*;

verus! {

proof fn lemma_first_space_behind(a: Seq<char>, rest: Seq<char>, i: int)
    requires
        0 <= i <= a.len(),
        rest.len() > 0,
        is_space(rest[0]),
    ensures
        first_space(a + rest, i) == first_space(a, i),
        i <= first_space(a, i) <= a.len(),
    decreases a.len() - i,
{
    if i < a.len() {
        assert((a + rest)[i] == a[i]);
        if !is_space(a[i]) {
            lemma_first_space_behind(a, rest, i + 1);
        }
    } else {
        assert((a + rest)[i] == rest[0]);
    }
}

proof fn lemma_first_space_in(a: Seq<char>, b: Seq<char>, i: int)
    requires
        0 <= i <= b.len(),
    ensures
        first_space(a + b, a.len() + i) == a.len() + first_space(b, i),
        i <= first_space(b, i) <= b.len(),
    decreases b.len() - i,
{
    if i < b.len() {
        assert((a + b)[a.len() + i] == b[i]);
        if !is_space(b[i]) {
            lemma_first_space_in(a, b, i + 1);
        }
    }
}

proof fn lemma_marked_in(a: Seq<char>, b: Seq<char>, i: int, start: bool)
    requires
        0 <= i <= b.len(),
    ensures
        marked_from(a + b, a.len() + i, start) == marked_from(b, i, start),
    decreases b.len() - i,
{
    if i < b.len() {
        assert((a + b)[a.len() + i] == b[i]);
        lemma_first_space_in(a, b, i);
        if !is_space(b[i]) {
            lemma_first_space_in(a, b, i + 1);
            assert((a + b)[first_space(a + b, a.len() + i) - 1] == b[first_space(b, i) - 1]);
        }
        lemma_marked_in(a, b, i + 1, is_space(b[i]));
    }
}

proof fn lemma_marked_front(a: Seq<char>, rest: Seq<char>, i: int, start: bool)
    requires
        0 <= i <= a.len(),
        rest.len() > 0,
        is_space(rest[0]),
    ensures
        marked_from(a + rest, i, start) == marked_from(a, i, start) + marked_from(rest, 0, false),
    decreases a.len() - i,
{
    if i < a.len() {
        assert((a + rest)[i] == a[i]);
        lemma_first_space_behind(a, rest, i);
        if !is_space(a[i]) {
            lemma_first_space_behind(a, rest, i + 1);
            assert((a + rest)[first_space(a, i) - 1] == a[first_space(a, i) - 1]);
        }
        lemma_marked_front(a, rest, i + 1, is_space(a[i]));
        assert(marked_from(a + rest, i, start) =~= marked_from(a, i, start) + marked_from(
            rest,
            0,
            false,
        ));
    } else {
        lemma_marked_in(a, rest, 0, start);
        assert(marked_from(rest, 0, start) =~= marked_from(rest, 0, false));
        assert(marked_from(a, i, start) + marked_from(rest, 0, false) =~= marked_from(
            rest,
            0,
            false,
        ));
    }
}

proof fn lemma_marked_word(word: Seq<char>, i: int)
    requires
        0 <= i <= word.len(),
        forall|k: int| 0 <= k < word.len() ==> !is_space(#[trigger] word[k]),
    ensures
        marked_from(word, i, false) == word.skip(i),
    decreases word.len() - i,
{
    if i < word.len() {
        lemma_marked_word(word, i + 1);
        assert(!is_space(word[i]));
        assert(seq![word[i]] + word.skip(i + 1) =~= word.skip(i));
    } else {
        assert(marked_from(word, i, false) =~= word.skip(i));
    }
}

/// The words of a query are marked one by one, and what is between them stays.
pub proof fn words_are_marked_each(a: Seq<char>, space: char, b: Seq<char>)
    requires
        is_space(space),
    ensures
        marked_from(a + seq![space] + b, 0, true) == marked_from(a, 0, true) + seq![space]
            + marked_from(b, 0, true),
{
    let rest = seq![space] + b;
    lemma_marked_front(a, rest, 0, true);
    lemma_marked_in(seq![space], b, 0, true);
    assert(marked_from(rest, 0, false) =~= seq![space] + marked_from(b, 0, true));
    assert(a + seq![space] + b =~= a + rest);
    assert(marked_from(a, 0, true) + (seq![space] + marked_from(b, 0, true)) =~= marked_from(
        a,
        0,
        true,
    ) + seq![space] + marked_from(b, 0, true));
}

/// A word is asked for whole by a `'` in front of it, unless it begins or ends with a mark of
/// its own; nothing else of it changes.
pub proof fn a_word_is_asked_for_whole(word: Seq<char>)
    requires
        word.len() > 0,
        forall|k: int| 0 <= k < word.len() ==> !is_space(#[trigger] word[k]),
    ensures
        word[0] == '^' || word[0] == '\'' || word[0] == '!' || word[0] == '\\' || word.last() == '$'
            ==> marked_from(word, 0, true) == word,
        word[0] != '^' && word[0] != '\'' && word[0] != '!' && word[0] != '\\' && word.last() != '$'
            ==> marked_from(word, 0, true) == seq!['\''] + word,
{
    lemma_word_end(word, 0);
    lemma_marked_word(word, 1);
    assert(!is_space(word[0]));
    assert(seq![word[0]] + word.skip(1) =~= word);
    assert(seq!['\'', word[0]] + word.skip(1) =~= seq!['\''] + word);
}

proof fn lemma_word_end(word: Seq<char>, i: int)
    requires
        0 <= i <= word.len(),
        forall|k: int| 0 <= k < word.len() ==> !is_space(#[trigger] word[k]),
    ensures
        first_space(word, i) == word.len(),
    decreases word.len() - i,
{
    if i < word.len() {
        assert(!is_space(word[i]));
        lemma_word_end(word, i + 1);
    }
}

/// A column is asked for anew where, and only where, another text was typed for it and it is
/// one to filter by; and it is asked for that text.
pub proof fn what_is_typed_is_asked_for(
    columns: Seq<ColumnView>,
    was: QueryView,
    now: QueryView,
    n: nat,
    k: int,
)
    requires
        0 <= k < n <= columns.len(),
        filtering(columns, n) <= usize::MAX,
    ensures
        ({
            let name = columns[k].name;
            let another = text_named(now, 0, name) != text_named(was, 0, name);
            let column = filtering(columns, k as nat);
            &&& columns[k].filter && another ==> exists|i: int|
                0 <= i < changes(columns, was, now, n).len() && {
                    let change = #[trigger] changes(columns, was, now, n)[i];
                    change.column == column && change.pattern == pattern_for(
                        columns[k],
                        text_named(now, 0, name),
                    )
                }
            &&& !columns[k].words ==> pattern_for(columns[k], text_named(now, 0, name))
                == text_named(now, 0, name)
        }),
        was == now ==> changes(columns, was, now, n).len() == 0,
    decreases n,
{
    let before = changes(columns, was, now, (n - 1) as nat);
    let all = changes(columns, was, now, n);
    let name = columns[k].name;
    if was == now {
        lemma_no_changes(columns, was, n);
    }
    if k < n - 1 {
        what_is_typed_is_asked_for(columns, was, now, (n - 1) as nat, k);
        if columns[k].filter && text_named(now, 0, name) != text_named(was, 0, name) {
            let i = choose|i: int|
                0 <= i < before.len() && {
                    let change = #[trigger] before[i];
                    change.column == filtering(columns, k as nat) && change.pattern == pattern_for(
                        columns[k],
                        text_named(now, 0, name),
                    )
                };
            assert(all[i] == before[i]);
        }
    } else if columns[k].filter && text_named(now, 0, name) != text_named(was, 0, name) {
        assert(all[before.len() as int].pattern == pattern_for(columns[k], text_named(now, 0, name)));
    }
}

proof fn lemma_no_changes(columns: Seq<ColumnView>, query: QueryView, n: nat)
    ensures
        changes(columns, query, query, n).len() == 0,
    decreases n,
{
    if n > 0 {
        lemma_no_changes(columns, query, (n - 1) as nat);
    }
}

/// The boxes on screen are those whose switch is on, and those without one, top to bottom.
pub proof fn a_switch_shows_its_boxes(
    fields: Seq<FieldView>,
    toggles: Seq<ToggleView>,
    n: nat,
    k: usize,
)
    requires
        n <= fields.len(),
        n <= usize::MAX,
        k < n,
    ensures
        ({
            let shown = fields_shown(fields, toggles, n);
            &&& shown.contains(k) <==> match fields[k as int].shown_by {
                Some(name) => exists|i: int|
                    0 <= i < toggles.len() && (#[trigger] toggles[i]).name == name && toggles[i].on,
                None => true,
            }
            &&& forall|i: int, j: int|
                0 <= i < j < shown.len() ==> #[trigger] shown[i] < #[trigger] shown[j]
        }),
{
    lemma_shown(fields, toggles, n);
    lemma_shown_has(fields, toggles, n, k);
}

proof fn lemma_shown(fields: Seq<FieldView>, toggles: Seq<ToggleView>, n: nat)
    requires
        n <= usize::MAX,
    ensures
        forall|i: int|
            0 <= i < fields_shown(fields, toggles, n).len() ==> (#[trigger] fields_shown(
                fields,
                toggles,
                n,
            )[i]) < n,
        forall|i: int, j: int|
            0 <= i < j < fields_shown(fields, toggles, n).len() ==> #[trigger] fields_shown(
                fields,
                toggles,
                n,
            )[i] < #[trigger] fields_shown(fields, toggles, n)[j],
    decreases n,
{
    if n > 0 {
        lemma_shown(fields, toggles, (n - 1) as nat);
        let before = fields_shown(fields, toggles, (n - 1) as nat);
        let all = fields_shown(fields, toggles, n);
        assert forall|i: int| 0 <= i < all.len() implies (#[trigger] all[i]) < n by {
            if i < before.len() {
                assert(all[i] == before[i]);
            }
        }
        assert forall|i: int, j: int| 0 <= i < j < all.len() implies #[trigger] all[i]
            < #[trigger] all[j] by {
            assert(all[i] == before[i]);
            if j < before.len() {
                assert(all[j] == before[j]);
            }
        }
    }
}

proof fn lemma_shown_has(fields: Seq<FieldView>, toggles: Seq<ToggleView>, n: nat, k: usize)
    requires
        n <= usize::MAX,
        k < n,
    ensures
        fields_shown(fields, toggles, n).contains(k) <==> is_shown(fields[k as int], toggles),
    decreases n,
{
    let before = fields_shown(fields, toggles, (n - 1) as nat);
    let all = fields_shown(fields, toggles, n);
    lemma_shown(fields, toggles, (n - 1) as nat);
    if k < n - 1 {
        lemma_shown_has(fields, toggles, (n - 1) as nat, k);
        if before.contains(k) {
            let i = choose|i: int| 0 <= i < before.len() && before[i] == k;
            assert(all[i] == k);
        }
    } else if is_shown(fields[n - 1], toggles) {
        assert(all[before.len() as int] == k);
    } else {
        assert(!before.contains(k));
    }
}

/// A search is given the query as it was typed, the text of every box and the state of every
/// switch, by name.
pub proof fn a_search_is_given_every_input(
    columns: Seq<ColumnView>,
    primary: int,
    query: QueryView,
    fields: Seq<FieldView>,
    toggles: Seq<ToggleView>,
    k: int,
)
    requires
        0 <= primary < columns.len(),
    ensures
        ({
            let input = inputs(columns, primary, query, fields, toggles);
            &&& 0 <= k < query.len() && query[k].0 == columns[primary].name && (forall|j: int|
                0 <= j < k ==> (#[trigger] query[j]).0 != columns[primary].name) ==> input.query
                == query[k].1
            &&& 0 <= k < fields.len() ==> input.fields.contains((fields[k].name, fields[k].line))
            &&& 0 <= k < toggles.len() && (forall|j: int|
                0 <= j < k ==> (#[trigger] toggles[j]).name != toggles[k].name) ==> on_named(
                input.toggles,
                0,
                toggles[k].name,
            ) == toggles[k].on
        }),
{
    let input = inputs(columns, primary, query, fields, toggles);
    if 0 <= k < query.len() && query[k].0 == columns[primary].name && (forall|j: int|
        0 <= j < k ==> (#[trigger] query[j]).0 != columns[primary].name) {
        lemma_named(query, 0, k);
    }
    if 0 <= k < fields.len() {
        let boxes = fields.map_values(|field: FieldView| crate::picker::panel::box_field(field));
        let typed = crate::picker::panel::typed_fields(columns, query, columns.len());
        assert(input.fields[typed.len() + k] == boxes[k]);
    }
    if 0 <= k < toggles.len() && (forall|j: int|
        0 <= j < k ==> (#[trigger] toggles[j]).name != toggles[k].name) {
        assert forall|j: int| 0 <= j < k implies (#[trigger] input.toggles[j]).0
            != input.toggles[k].0 by {
            assert(toggles[j].name != toggles[k].name);
        }
        lemma_on(input.toggles, 0, k);
    }
}

proof fn lemma_named(query: QueryView, i: int, k: int)
    requires
        0 <= i <= k < query.len(),
        forall|j: int| i <= j < k ==> (#[trigger] query[j]).0 != query[k].0,
    ensures
        text_named(query, i, query[k].0) == query[k].1,
    decreases k - i,
{
    if i < k {
        assert(query[i].0 != query[k].0);
        lemma_named(query, i + 1, k);
    }
}

proof fn lemma_on(toggles: Seq<(Seq<char>, bool)>, i: int, k: int)
    requires
        0 <= i <= k < toggles.len(),
        forall|j: int| i <= j < k ==> (#[trigger] toggles[j]).0 != toggles[k].0,
    ensures
        on_named(toggles, i, toggles[k].0) == toggles[k].1,
    decreases k - i,
{
    if i < k {
        assert(toggles[i].0 != toggles[k].0);
        lemma_on(toggles, i + 1, k);
    }
}

} // verus!
