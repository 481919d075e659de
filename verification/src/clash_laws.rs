//! What stands in the way of keys is told.

use crate::bindings::{all_sent, begun, buried_at, clash_from, in_the_way, runs_something, stopped,
    takes_text, ClashView, Where};
use crate::input::KeyEvent;
use crate::keymap::{searched, KeymapsView, Mode, TrieView};
use vstd::prelude::*;

verus! {

/// A place is looked at in the modes it works in, and in no other.
pub proof fn a_place_is_its_modes(place: Where, mode: Mode)
    ensures
        place.spec_modes().contains(mode) <==> place.reaches(mode),
{
    let modes = place.spec_modes();
    match place {
        Where::Anywhere => {
            assert(modes[0] == Mode::Normal || modes[1] == Mode::Normal || modes[2]
                == Mode::Normal);
            assert(modes[0] == Mode::Select || modes[1] == Mode::Select || modes[2]
                == Mode::Select);
            assert(modes[0] == Mode::Insert || modes[1] == Mode::Insert || modes[2]
                == Mode::Insert);
        },
        Where::Insert => {
            assert(modes[0] == Mode::Insert);
        },
        Where::Modal { normal, select } => {
            if normal && select {
                assert(modes[0] == Mode::Normal || modes[1] == Mode::Normal);
                assert(modes[0] == Mode::Select || modes[1] == Mode::Select);
            } else if normal {
                assert(modes[0] == Mode::Normal);
            } else if select {
                assert(modes[0] == Mode::Select);
            }
        },
    }
}

proof fn lemma_buried(map: TrieView, keys: Seq<KeyEvent>, start: int, end: int)
    requires
        0 <= start <= end < keys.len(),
        runs_something(searched(map, keys.subrange(0, end))),
    ensures
        buried_at(map, keys, start) is Some,
    decreases end - start,
{
    if start < end {
        lemma_buried(map, keys, start + 1, end);
    }
}

proof fn lemma_clash(
    maps: KeymapsView,
    modes: Seq<Mode>,
    k: int,
    i: int,
    keys: Seq<KeyEvent>,
    begins: Option<ClashView>,
)
    requires
        0 <= k <= i < modes.len(),
        maps.get(modes[i]) is Some,
        stopped(maps.get(modes[i])->0, keys) is Some || begun(maps.get(modes[i])->0, keys) is Some,
    ensures
        clash_from(maps, modes, k, keys, begins) is Some,
    decreases modes.len() - k,
{
    if k < i {
        match maps.get(modes[k]) {
            None => lemma_clash(maps, modes, k + 1, i, keys, begins),
            Some(map) => {
                if stopped(map, keys) is None {
                    let more = if begins is Some {
                        begins
                    } else {
                        begun(map, keys)
                    };
                    lemma_clash(maps, modes, k + 1, i, keys, more);
                }
            },
        }
    } else {
        let map = maps.get(modes[k])->0;
        if stopped(map, keys) is None {
            lemma_begins(
                maps,
                modes,
                k + 1,
                keys,
                if begins is Some {
                    begins
                } else {
                    begun(map, keys)
                },
            );
        }
    }
}

proof fn lemma_begins(
    maps: KeymapsView,
    modes: Seq<Mode>,
    k: int,
    keys: Seq<KeyEvent>,
    begins: Option<ClashView>,
)
    requires
        0 <= k,
        begins is Some,
    ensures
        clash_from(maps, modes, k, keys, begins) is Some,
    decreases modes.len() - k,
{
    if k < modes.len() {
        lemma_begins(maps, modes, k + 1, keys, begins);
    }
}

proof fn lemma_free(maps: KeymapsView, modes: Seq<Mode>, k: int, keys: Seq<KeyEvent>)
    requires
        0 <= k,
        forall|i: int|
            0 <= i < modes.len() ==> (maps.get(#[trigger] modes[i]) matches Some(map) ==> stopped(
                map,
                keys,
            ) is None && begun(map, keys) is None),
    ensures
        clash_from(maps, modes, k, keys, None) is None,
    decreases modes.len() - k,
{
    if k < modes.len() {
        assert(maps.get(modes[k]) matches Some(map) ==> stopped(map, keys) is None && begun(
            map,
            keys,
        ) is None);
        lemma_free(maps, modes, k + 1, keys);
    }
}

/// Whatever giving keys away would cost is told first: what they run in any mode the place
/// works in, what a key on the way to them runs, the shortcuts they are the beginning of, and
/// that the terminal never sends them. A key left free on purpose is free.
pub proof fn what_would_be_lost_is_told(
    maps: KeymapsView,
    place: Where,
    keys: Seq<KeyEvent>,
    never: Seq<KeyEvent>,
    mode: Mode,
    end: int,
)
    requires
        keys.len() > 0,
        place.reaches(mode),
        maps.get(mode) is Some,
    ensures
        ({
            let map = maps.get(mode)->0;
            let found = searched(map, keys);
            let told = in_the_way(maps, place, keys, never) is Some;
            &&& found is Some && found->0 is Sequence ==> told
            &&& (found matches Some(TrieView::Command(command)) && !command.is_no_op()) ==> told
            &&& found is Some && found->0 is Node ==> told
            &&& 0 < end < keys.len() && runs_something(searched(map, keys.subrange(0, end)))
                ==> told
            &&& !all_sent(keys, never) ==> told
        }),
{
    let map = maps.get(mode)->0;
    a_place_is_its_modes(place, mode);
    let modes = place.spec_modes();
    let i = choose|i: int| 0 <= i < modes.len() && modes[i] == mode;
    if 0 < end < keys.len() && runs_something(searched(map, keys.subrange(0, end))) {
        lemma_buried(map, keys, 1, end);
    }
    if stopped(map, keys) is Some || begun(map, keys) is Some {
        lemma_clash(maps, modes, 0, i, keys, None);
    }
}

/// Keys that lead nowhere in any mode the place works in, by way of keys that run nothing, and
/// that type no text and can be sent, are free.
pub proof fn nothing_is_in_the_way_of_free_keys(
    maps: KeymapsView,
    place: Where,
    keys: Seq<KeyEvent>,
    never: Seq<KeyEvent>,
)
    requires
        !takes_text(place, keys),
        all_sent(keys, never),
        forall|mode: Mode|
            place.reaches(mode) ==> ((#[trigger] maps.get(mode)) matches Some(map) ==> searched(
                map,
                keys,
            ) is None && buried_at(map, keys, 1) is None),
    ensures
        in_the_way(maps, place, keys, never) is None,
{
    let modes = place.spec_modes();
    assert forall|i: int| 0 <= i < modes.len() implies (maps.get(#[trigger] modes[i]) matches Some(
        map,
    ) ==> stopped(map, keys) is None && begun(map, keys) is None) by {
        assert(modes.contains(modes[i]));
        a_place_is_its_modes(place, modes[i]);
    }
    lemma_free(maps, modes, 0, keys);
}

} // verus!
