//! What the screen of the shortcuts lists, and what taking keys away and giving them back
//! comes to.

use crate::bindings::{a_shortcut_given_is_found, a_shortcut_taken_away_is_gone, told_apart_along,
    ActionView, FoundView, RunsView, Where};
use crate::input::KeyEvent;
use crate::keymap::{searched, Mode, TrieView};
use crate::shortcuts::{bound_rows, free_actions, is_bound, places_of, row_for, rows_for, seen_at,
    with_all_found, with_found, ScreenView, SeenView};
use vstd::prelude::*;

verus! {

// ---------------------------------------------------------------------------------------
// Taking away and giving back
// ---------------------------------------------------------------------------------------

/// Keys that were taken away run nothing any more in the modes they were taken away in, and
/// what they did before in the others. Where that could not be written down no key changes.
pub proof fn keys_taken_away_run_nothing(
    screen: ScreenView,
    place: Where,
    keys: Seq<KeyEvent>,
    description: Seq<char>,
    written: Result<(), Seq<char>>,
    mode: Mode,
)
    requires
        keys.len() > 0,
    ensures
        ({
            let after = screen.taken_away(place, keys, description, written);
            &&& written is Err ==> after.maps == screen.maps && after.rows == screen.rows
            &&& written is Ok && place.reaches(mode) ==> (screen.maps.get(mode) matches Some(map)
                ==> (map is Node && told_apart_along(map, keys) ==> after.maps.get(mode) is Some
                && searched(after.maps.get(mode)->0, keys) is None))
            &&& !place.reaches(mode) ==> after.maps.get(mode) == screen.maps.get(mode)
            &&& after.said is Some
        }),
{
    if let Some(map) = screen.maps.get(mode) {
        if map is Node && told_apart_along(map, keys) {
            a_shortcut_taken_away_is_gone(map, keys);
        }
    }
}

/// Keys that are given back run what they do by default, in every mode, or nothing where they
/// do nothing by default; all of them given back, every key does.
pub proof fn keys_given_back_run_the_default(
    screen: ScreenView,
    place: Where,
    keys: Seq<KeyEvent>,
    written: Result<(), Seq<char>>,
    mode: Mode,
    own: TrieView,
)
    requires
        keys.len() > 0,
        screen.sids.get(mode) is Some,
        // What the keys do by default is the same in every mode the place reaches.
        forall|other: Mode|
            place.reaches(other) ==> ((#[trigger] screen.sids.get(other)) matches Some(map)
                && searched(map, keys) == searched(screen.sids.get(mode)->0, keys)),
        place.reaches(mode),
        screen.maps.get(mode) == Some(own),
        own is Node,
        told_apart_along(own, keys),
    ensures
        ({
            let after = screen.given_back(place, keys, written);
            &&& written is Err ==> after.maps == screen.maps
            &&& written is Ok ==> after.maps.get(mode) is Some && searched(
                after.maps.get(mode)->0,
                keys,
            ) == searched(screen.sids.get(mode)->0, keys)
        }),
        written is Ok ==> screen.all_given_back(written).maps == screen.sids,
        written is Err ==> screen.all_given_back(written).maps == screen.maps,
{
    let default = searched(screen.sids.get(mode)->0, keys);
    assert(screen.sids.get(Mode::Normal) == screen.sids.normal);
    assert(screen.sids.get(Mode::Select) == screen.sids.select);
    assert(screen.sids.get(Mode::Insert) == screen.sids.insert);
    a_shortcut_taken_away_is_gone(own, keys);
    if let Some(trie) = default {
        a_shortcut_given_is_found(own, keys, trie);
    }
}

// ---------------------------------------------------------------------------------------
// The list
// ---------------------------------------------------------------------------------------

/// Whether a shortcut was found in a mode.
pub open spec fn works_in(one: SeenView, mode: Mode) -> bool {
    match mode {
        Mode::Normal => one.normal,
        Mode::Select => one.select,
        Mode::Insert => one.insert,
    }
}

/// The lines of a shortcut say where it works: a mode is on one of them where, and only where,
/// the shortcut is in it, and on no two.
pub proof fn lines_say_where_it_works(one: SeenView, mode: Mode)
    ensures
        ({
            let places = places_of(one);
            &&& works_in(one, mode) <==> exists|i: int|
                0 <= i < places.len() && (#[trigger] places[i]).reaches(mode)
            &&& forall|i: int, j: int|
                0 <= i < j < places.len() ==> !((#[trigger] places[i]).reaches(mode) && (
                #[trigger] places[j]).reaches(mode))
            &&& one.normal && one.select && one.insert ==> places.len() == 1
            &&& places.len() <= 2
        }),
{
    let places = places_of(one);
    if one.normal && one.select && one.insert {
        assert(places[0].reaches(mode));
    } else {
        if one.insert {
            assert(places[0] == Where::Insert);
        }
        if one.normal || one.select {
            let at = places.len() - 1;
            assert(places[at] == Where::Modal { normal: one.normal, select: one.select });
        }
        if works_in(one, mode) {
            if mode == Mode::Insert {
                assert(places[0].reaches(mode));
            } else {
                assert(places[places.len() - 1].reaches(mode));
            }
        }
    }
}

proof fn lemma_seen_at(seen: Seq<SeenView>, k: int, keys: Seq<KeyEvent>, runs: RunsView)
    requires
        0 <= k <= seen.len(),
    ensures
        k <= seen_at(seen, k, keys, runs) <= seen.len(),
        seen_at(seen, k, keys, runs) < seen.len() ==> seen[seen_at(seen, k, keys, runs)].keys
            == keys && seen[seen_at(seen, k, keys, runs)].runs == runs,
    decreases seen.len() - k,
{
    if k < seen.len() && !(seen[k].keys == keys && seen[k].runs == runs) {
        lemma_seen_at(seen, k + 1, keys, runs);
    }
}

/// Whether keys that run something in a mode are among the shortcuts.
pub open spec fn is_seen(
    seen: Seq<SeenView>,
    keys: Seq<KeyEvent>,
    runs: RunsView,
    mode: Mode,
) -> bool {
    exists|i: int|
        0 <= i < seen.len() && (#[trigger] seen[i]).keys == keys && seen[i].runs == runs
            && works_in(seen[i], mode)
}

proof fn lemma_found(seen: Seq<SeenView>, found: FoundView, mode: Mode)
    ensures
        is_seen(with_found(seen, found, mode), found.keys, found.runs, mode),
        forall|keys: Seq<KeyEvent>, runs: RunsView, other: Mode| #[trigger]
            is_seen(seen, keys, runs, other) ==> is_seen(
                with_found(seen, found, mode),
                keys,
                runs,
                other,
            ),
{
    lemma_seen_at(seen, 0, found.keys, found.runs);
    let after = with_found(seen, found, mode);
    let at = seen_at(seen, 0, found.keys, found.runs);
    assert(after[at].keys == found.keys && after[at].runs == found.runs && works_in(
        after[at],
        mode,
    ));
    assert forall|keys: Seq<KeyEvent>, runs: RunsView, other: Mode| #[trigger]
        is_seen(seen, keys, runs, other) implies is_seen(after, keys, runs, other) by {
        let i = choose|i: int|
            0 <= i < seen.len() && (#[trigger] seen[i]).keys == keys && seen[i].runs == runs
                && works_in(seen[i], other);
        assert(after[i].keys == keys && after[i].runs == runs && works_in(after[i], other));
    }
}

/// Every shortcut found in a mode is among those listed, in that mode, with those that were
/// there before.
pub proof fn every_shortcut_is_found(
    seen: Seq<SeenView>,
    found: Seq<FoundView>,
    n: nat,
    mode: Mode,
    i: int,
)
    requires
        n <= found.len(),
    ensures
        0 <= i < n ==> is_seen(
            with_all_found(seen, found, n, mode),
            found[i].keys,
            found[i].runs,
            mode,
        ),
        forall|keys: Seq<KeyEvent>, runs: RunsView, other: Mode| #[trigger]
            is_seen(seen, keys, runs, other) ==> is_seen(
                with_all_found(seen, found, n, mode),
                keys,
                runs,
                other,
            ),
    decreases n,
{
    if n > 0 {
        every_shortcut_is_found(seen, found, (n - 1) as nat, mode, i);
        lemma_found(with_all_found(seen, found, (n - 1) as nat, mode), found[n - 1], mode);
    }
}

/// Every shortcut has its lines on the screen, each with its keys and what they do.
pub proof fn every_shortcut_has_its_lines(seen: Seq<SeenView>, n: nat, i: int, p: int)
    requires
        0 <= i < n <= seen.len(),
        0 <= p < places_of(seen[i]).len(),
    ensures
        bound_rows(seen, n).contains(
            row_for(places_of(seen[i])[p], seen[i].keys, seen[i].runs, seen[i].words),
        ),
    decreases n,
{
    let row = row_for(places_of(seen[i])[p], seen[i].keys, seen[i].runs, seen[i].words);
    let before = bound_rows(seen, (n - 1) as nat);
    let own = rows_for(seen[n - 1]);
    let all = bound_rows(seen, n);
    if i < n - 1 {
        every_shortcut_has_its_lines(seen, (n - 1) as nat, i, p);
        let at = choose|at: int| 0 <= at < before.len() && before[at] == row;
        assert(all[at] == row);
    } else {
        assert(own[p] == row);
        assert(all[before.len() + p] == row);
    }
}

/// What no key reaches yet is listed too, and nothing that a key does reach is listed as free.
pub proof fn what_no_key_reaches_is_free(
    seen: Seq<SeenView>,
    actions: Seq<ActionView>,
    n: nat,
    i: int,
)
    requires
        0 <= i < n <= actions.len(),
    ensures
        !is_bound(seen, actions[i].runs) ==> free_actions(seen, actions, n).contains(actions[i]),
        forall|j: int|
            0 <= j < free_actions(seen, actions, n).len() ==> !is_bound(
                seen,
                (#[trigger] free_actions(seen, actions, n)[j]).runs,
            ),
    decreases n,
{
    let before = free_actions(seen, actions, (n - 1) as nat);
    let all = free_actions(seen, actions, n);
    if n > 1 {
        let k = if i < n - 1 {
            i
        } else {
            0
        };
        what_no_key_reaches_is_free(seen, actions, (n - 1) as nat, k);
    } else {
        assert(before =~= Seq::empty());
    }
    if !is_bound(seen, actions[i].runs) {
        if i < n - 1 {
            let at = choose|at: int| 0 <= at < before.len() && before[at] == actions[i];
            assert(all[at] == actions[i]);
        } else {
            assert(all[before.len() as int] == actions[i]);
        }
    }
    assert forall|j: int| 0 <= j < all.len() implies !is_bound(seen, (#[trigger] all[j]).runs) by {
        if j < before.len() {
            assert(all[j] == before[j]);
        }
    }
}

} // verus!
