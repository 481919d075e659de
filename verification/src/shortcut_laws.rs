//! What the keys and the mouse come to on the screen of the shortcuts.

use crate::bindings::{a_shortcut_given_is_found, in_the_way, ClashView, KnownView, Where};
use crate::filter::answers;
use crate::graphics::Rect;
use crate::input::{KeyCode, KeyEvent, KeyModifiers, MouseButton, MouseEvent, MouseEventKind};
use crate::keymap::{searched, KeymapsView, Mode};
use crate::settings::row_under;
use crate::shortcuts::{in_scope, rows_shown, ChangeView, Next, RowView, ScreenView, ShortcutsTask};
use vstd::prelude::*;

verus! {

/// Nothing is held.
pub open spec fn nothing_held() -> KeyModifiers {
    KeyModifiers { shift: false, control: false, alt: false, meta: false }
}

/// A key with nothing held.
pub open spec fn alone(code: KeyCode) -> KeyEvent {
    KeyEvent { code, modifiers: nothing_held() }
}

// ---------------------------------------------------------------------------------------
// Giving keys
// ---------------------------------------------------------------------------------------

/// Keys are given by Enter, once there are some, and never where what stands in their way
/// refuses them.
pub proof fn nothing_refused_is_given(screen: ScreenView, key: KeyEvent)
    ensures
        screen.after_key(key).1 == ShortcutsTask::Give ==> {
            &&& screen.capture is Some
            &&& screen.capture->0.keys.len() > 0
            &&& screen.capture->0.clash != Some(ClashView::Text)
            &&& key.code == KeyCode::Enter
        },
        // What may be given is.
        screen.capture is Some && screen.capture->0.keys.len() > 0 && screen.capture->0.clash
            != Some(ClashView::Text) && key.code == KeyCode::Enter ==> screen.after_key(key) == (
            screen,
            ShortcutsTask::Give,
        ),
{
}

/// A key that types cannot be given to what works while typing: pressed first, it stands in
/// its own way, whatever is pressed behind it, and Enter gives nothing and leaves the box
/// open.
pub proof fn text_always_types(
    maps: KeymapsView,
    place: Where,
    keys: Seq<KeyEvent>,
    never: Seq<KeyEvent>,
    c: char,
)
    requires
        place == Where::Anywhere || place == Where::Insert,
        keys.len() > 0,
        keys[0].code == KeyCode::Char(c),
        !keys[0].modifiers.control && !keys[0].modifiers.alt && !keys[0].modifiers.meta,
    ensures
        in_the_way(maps, place, keys, never) == Some(ClashView::Text),
{
}

/// A plain letter pressed for what works while typing, and then Enter: nothing is given and
/// the box stays open, as long as the letter is not the very shortcut there was.
pub proof fn a_letter_is_not_given_away(screen: ScreenView, c: char)
    requires
        screen.capture matches Some(capture) && capture.keys.len() == 0 && (capture.place
            == Where::Anywhere || capture.place == Where::Insert) && capture.was.len() != 1,
    ensures
        ({
            let (pressed, _) = screen.after_key(alone(KeyCode::Char(c)));
            let (after, task) = pressed.after_key(alone(KeyCode::Enter));
            &&& task == ShortcutsTask::Nothing
            &&& after.capture is Some
            &&& after.maps == screen.maps
        }),
{
    let (pressed, _) = screen.after_key(alone(KeyCode::Char(c)));
    let keys = pressed.capture->0.keys;
    assert(keys == Seq::<KeyEvent>::empty().push(alone(KeyCode::Char(c)))) by {
        assert(screen.capture->0.keys =~= Seq::empty());
    }
    text_always_types(screen.maps, screen.capture->0.place, keys, screen.never, c);
}

/// What stands in the way refuses only letters: a function key, or a letter with Ctrl, Alt or
/// Cmd, is never text.
pub proof fn only_text_is_refused(
    maps: KeymapsView,
    place: Where,
    keys: Seq<KeyEvent>,
    never: Seq<KeyEvent>,
)
    requires
        in_the_way(maps, place, keys, never) == Some(ClashView::Text),
    ensures
        keys.len() > 0,
        keys[0].code is Char,
        !keys[0].modifiers.control && !keys[0].modifiers.alt && !keys[0].modifiers.meta,
        place == Where::Anywhere || place == Where::Insert,
{
    lemma_no_text(maps, place.spec_modes(), 0, keys, None);
}

proof fn lemma_no_text(
    maps: KeymapsView,
    modes: Seq<Mode>,
    k: int,
    keys: Seq<KeyEvent>,
    begins: Option<ClashView>,
)
    requires
        begins != Some(ClashView::Text),
        0 <= k,
    ensures
        crate::bindings::clash_from(maps, modes, k, keys, begins) != Some(ClashView::Text),
    decreases modes.len() - k,
{
    if k < modes.len() {
        lemma_no_text(maps, modes, k + 1, keys, begins);
        if let Some(map) = maps.get(modes[k]) {
            lemma_no_text(maps, modes, k + 1, keys, crate::bindings::begun(map, keys));
        }
    }
}

/// Each key pressed comes behind those pressed before, a letter with Shift as its capital and
/// any other as it is; nothing is given by it.
pub proof fn keys_come_one_behind_the_other(screen: ScreenView, key: KeyEvent)
    requires
        screen.capture is Some,
        key.code != KeyCode::Esc,
        screen.capture->0.keys.len() == 0 || (key.code != KeyCode::Enter && key.code
            != KeyCode::Backspace),
    ensures
        ({
            let (after, task) = screen.after_key(key);
            let keys = screen.capture->0.keys;
            &&& task == ShortcutsTask::Nothing
            &&& after.capture is Some
            &&& after.capture->0.keys.len() == keys.len() + 1
            &&& forall|i: int| 0 <= i < keys.len() ==> #[trigger] after.capture->0.keys[i] == keys[i]
            &&& !key.modifiers.shift ==> after.capture->0.keys.last() == key
            &&& key.modifiers.shift ==> (key.code matches KeyCode::Char(c) ==> ('a' <= c <= 'z'
                ==> after.capture->0.keys.last() == (KeyEvent {
                code: KeyCode::Char(((c as u32) - 32) as char),
                modifiers: KeyModifiers { shift: false, ..key.modifiers },
            })))
            &&& !(key.code is Char) ==> after.capture->0.keys.last() == key
            &&& after.capture->0.place == screen.capture->0.place
            &&& after.capture->0.runs == screen.capture->0.runs
        }),
{
}

/// Backspace takes the last key back, and what is said of those that are left is what would be
/// said of them alone.
pub proof fn backspace_takes_the_last_key_back(screen: ScreenView, key: KeyEvent)
    requires
        screen.capture is Some,
        screen.capture->0.keys.len() > 0,
        key.code == KeyCode::Backspace,
    ensures
        ({
            let (after, task) = screen.after_key(key);
            let keys = screen.capture->0.keys;
            &&& task == ShortcutsTask::Nothing
            &&& after.capture is Some
            &&& after.capture->0.keys == keys.drop_last()
            &&& after.capture->0.was != keys.drop_last() ==> after.capture->0.clash == in_the_way(
                screen.maps,
                screen.capture->0.place,
                keys.drop_last(),
                screen.never,
            )
        }),
{
}

/// Esc goes back to the list, with nothing given and nothing else changed.
pub proof fn esc_goes_back_to_the_list(screen: ScreenView, key: KeyEvent)
    requires
        screen.capture is Some,
        key.code == KeyCode::Esc,
    ensures
        screen.after_key(key) == (ScreenView { capture: None, ..screen }, ShortcutsTask::Nothing),
{
}

/// What is written down is what was pressed, for what was asked about and where it works; what
/// the keys ran before is pointed at once it has lost them.
pub proof fn what_is_pressed_is_what_is_written(screen: ScreenView)
    requires
        screen.capture is Some,
    ensures
        ({
            let capture = screen.capture->0;
            let (after, change) = screen.giving_up_capture();
            &&& after.capture is None
            &&& capture.keys.len() == 0 ==> change is None
            &&& capture.keys.len() > 0 ==> {
                &&& change is Some
                &&& change->0.keys == capture.keys
                &&& change->0.runs == capture.runs
                &&& change->0.place == capture.place
                &&& change->0.was == capture.was
            }
        }),
{
}

/// Once a shortcut is written down its keys run it, in every mode it works in; one that could
/// not be written changes no key.
pub proof fn a_shortcut_written_runs(
    screen: ScreenView,
    change: ChangeView,
    written: Result<(), Seq<char>>,
    known: KnownView,
    mode: Mode,
)
    requires
        change.keys.len() > 0,
    ensures
        ({
            let (after, next) = screen.given(change, written, known);
            &&& written is Err ==> after.maps == screen.maps && next == Next::Stop
            &&& written is Ok && change.place.reaches(mode) ==> (change.runs.trie(
                known,
            ) matches Ok(trie) ==> (screen.maps.get(mode) matches Some(map) ==> (map is Node
                ==> after.maps.get(mode) is Some && searched(after.maps.get(mode)->0, change.keys)
                == Some(trie))))
            &&& written is Ok && !change.place.reaches(mode) ==> after.maps.get(mode)
                == screen.maps.get(mode)
            // The keys it had before are to go, where they are others.
            &&& written is Ok && change.runs.trie(known) is Ok ==> (next == Next::Settle <==> (
            change.was.len() == 0 || change.was == change.keys))
        }),
{
    if let Ok(trie) = change.runs.trie(known) {
        if let Some(map) = screen.maps.get(mode) {
            if map is Node {
                a_shortcut_given_is_found(map, change.keys, trie);
            }
        }
    }
}

// ---------------------------------------------------------------------------------------
// The list
// ---------------------------------------------------------------------------------------

/// A row is shown where it belongs under the tab in front and has every word typed, and only
/// there; those that are shown stand in their order.
pub proof fn what_answers_is_listed(
    rows: Seq<RowView>,
    scope: usize,
    words: Seq<Seq<char>>,
    n: nat,
)
    requires
        n <= rows.len() <= usize::MAX,
    ensures
        forall|i: int|
            0 <= i < rows_shown(rows, scope, words, n).len() ==> (#[trigger] rows_shown(
                rows,
                scope,
                words,
                n,
            )[i]) < n && answers(
                rows[rows_shown(rows, scope, words, n)[i] as int].search,
                words,
            ) && in_scope(rows[rows_shown(rows, scope, words, n)[i] as int], scope),
        forall|i: int, j: int|
            0 <= i < j < rows_shown(rows, scope, words, n).len() ==> #[trigger] rows_shown(
                rows,
                scope,
                words,
                n,
            )[i] < #[trigger] rows_shown(rows, scope, words, n)[j],
        forall|k: int|
            0 <= k < n && answers((#[trigger] rows[k]).search, words) && in_scope(rows[k], scope)
                ==> rows_shown(rows, scope, words, n).contains(k as usize),
    decreases n,
{
    if n > 0 {
        what_answers_is_listed(rows, scope, words, (n - 1) as nat);
        let before = rows_shown(rows, scope, words, (n - 1) as nat);
        let after = rows_shown(rows, scope, words, n);
        assert forall|k: int|
            0 <= k < n && answers((#[trigger] rows[k]).search, words) && in_scope(
                rows[k],
                scope,
            ) implies after.contains(k as usize) by {
            if k < n - 1 {
                let i = choose|i: int| 0 <= i < before.len() && before[i] == k as usize;
                assert(after[i] == k as usize);
            } else {
                assert(after[after.len() - 1] == k as usize);
            }
        }
    }
}

/// The first tab has every row, the second what works only while typing, the third what works
/// only in modal editing, and the last what no key reaches.
pub proof fn tabs_part_the_rows(row: RowView)
    ensures
        in_scope(row, 0),
        in_scope(row, 1) == (row.scope == "Insert"@),
        in_scope(row, 2) == (row.scope == "Modal"@),
        in_scope(row, 3) == (row.keys.len() == 0),
{
}

/// The arrows go one row down and up, a page a page, Home and End to the first and the last,
/// each no further than there are rows.
#[verifier::rlimit(80)]
pub proof fn the_arrows_walk_the_list(screen: ScreenView, key: KeyEvent)
    requires
        screen.capture is None,
        screen.cursor < screen.shown().len(),
        screen.shown().len() <= isize::MAX / 2,
    ensures
        ({
            let (after, task) = screen.after_key(key);
            let last = screen.shown().len() - 1;
            let walks = key.code == KeyCode::Down || key.code == KeyCode::Up || key.code
                == KeyCode::PageDown || key.code == KeyCode::PageUp || key.code == KeyCode::Home
                || key.code == KeyCode::End;
            &&& walks ==> {
                &&& task == ShortcutsTask::Nothing
                &&& after.rows == screen.rows && after.query == screen.query
                &&& after.scope == screen.scope && after.maps == screen.maps
                &&& after.scroll <= after.cursor
            }
            &&& key.code == KeyCode::Down && screen.cursor < last ==> after.cursor == screen.cursor
                + 1
            &&& key.code == KeyCode::Down && screen.cursor == last ==> after.cursor == last
            &&& key.code == KeyCode::Up && screen.cursor > 0 ==> after.cursor == screen.cursor - 1
            &&& key.code == KeyCode::Up && screen.cursor == 0 ==> after.cursor == 0
            &&& key.code == KeyCode::PageDown && screen.cursor + screen.page <= last
                ==> after.cursor == screen.cursor + screen.page
            &&& key.code == KeyCode::PageUp && screen.page <= screen.cursor ==> after.cursor
                == screen.cursor - screen.page
            &&& key.code == KeyCode::Home ==> after.cursor == 0
            &&& key.code == KeyCode::End ==> after.cursor == last
        }),
{
    let rest = ScreenView { armed: false, ..screen };
    assert(rest.shown() == screen.shown());
    let (after, task) = screen.after_key(key);
    match key.code {
        KeyCode::Down => {
            assert(after == rest.walked(1));
        },
        KeyCode::Up => {
            assert(after == rest.walked(-1));
        },
        KeyCode::PageDown => {
            assert(after == rest.walked(screen.page as int));
        },
        KeyCode::PageUp => {
            assert(after == rest.walked(-(screen.page as int)));
        },
        KeyCode::Home => {
            assert(after == rest.walked(isize::MIN as int / 2));
        },
        KeyCode::End => {
            assert(after == rest.walked(isize::MAX as int / 2));
        },
        _ => {},
    }
}

/// What is typed narrows the list and starts it from its top; Backspace takes the last letter
/// back and Ctrl-u all of them.
#[verifier::rlimit(80)]
pub proof fn typing_narrows_the_list(screen: ScreenView, key: KeyEvent)
    requires
        screen.capture is None,
    ensures
        ({
            let (after, task) = screen.after_key(key);
            &&& key.modifiers == nothing_held() ==> (key.code matches KeyCode::Char(c) ==> {
                &&& task == ShortcutsTask::Nothing
                &&& after.query == screen.query.push(c)
                &&& after.cursor == 0 && after.scroll == 0
            })
            &&& key.code == KeyCode::Backspace && screen.query.len() > 0 ==> after.query
                == screen.query.drop_last() && after.cursor == 0
            &&& key.code == KeyCode::Char('u') && key.modifiers == (KeyModifiers {
                control: true,
                ..nothing_held()
            }) ==> after.query.len() == 0
            &&& key.code is Char ==> after.rows == screen.rows && after.maps == screen.maps
        }),
{
    match key.code {
        KeyCode::Char(_) => {},
        KeyCode::Backspace => {},
        _ => {},
    }
}

/// The other keys of the list ask for just what they are for: Esc and F1 close the screen,
/// Enter asks for the keys of the row in focus, Delete takes them away, Ctrl-r gives them back
/// and with Alt gives all back, Tab goes to the next tab and from the last to the first.
pub proof fn keys_of_the_list(screen: ScreenView, key: KeyEvent)
    requires
        screen.capture is None,
        screen.scope < 4,
    ensures
        ({
            let (after, task) = screen.after_key(key);
            let control = KeyModifiers { control: true, ..nothing_held() };
            let both = KeyModifiers { control: true, alt: true, ..nothing_held() };
            &&& task == ShortcutsTask::Close <==> key.code == KeyCode::Esc || key.code == KeyCode::F(
                1,
            )
            &&& task == ShortcutsTask::TakeAway <==> key.code == KeyCode::Delete
            &&& task == ShortcutsTask::GiveBack <==> key == (KeyEvent {
                code: KeyCode::Char('r'),
                modifiers: control,
            })
            &&& task == ShortcutsTask::GiveAllBack <==> key == (KeyEvent {
                code: KeyCode::Char('r'),
                modifiers: both,
            })
            // Anything else answers "no" to giving all of them back.
            &&& task != ShortcutsTask::GiveAllBack ==> !after.armed
            &&& task != ShortcutsTask::Give
            &&& key.code == KeyCode::Tab ==> after.scope == (if screen.scope == 3 {
                0int
            } else {
                screen.scope + 1
            }) && after.cursor == 0
            &&& key.code == KeyCode::Enter && screen.cursor < screen.shown().len() ==> {
                let row = screen.rows[screen.shown()[screen.cursor as int] as int];
                &&& after.capture is Some
                &&& after.capture->0.keys.len() == 0
                &&& after.capture->0.runs == row.runs && after.capture->0.place == row.place
                &&& after.capture->0.was == row.keys
            }
            &&& key.code != KeyCode::Enter ==> after.capture is None
        }),
{
    let rest = ScreenView { armed: false, ..screen };
    assert(rest.shown() =~= screen.shown());
}

// ---------------------------------------------------------------------------------------
// The mouse
// ---------------------------------------------------------------------------------------

/// A cell of a line of the screen.
pub open spec fn on(line: Rect, event: MouseEvent) -> bool {
    event.row == line.y && line.x <= event.column < line.x + line.width
}

proof fn lemma_under(lines: Seq<Rect>, k: int, at: int, event: MouseEvent)
    requires
        0 <= k <= at <= lines.len(),
        forall|i: int| 0 <= i < lines.len() ==> (#[trigger] lines[i]).fits(),
        at < lines.len() ==> on(lines[at], event),
        forall|i: int| k <= i < at ==> !on(#[trigger] lines[i], event),
    ensures
        row_under(lines, k, event.row, event.column) == at,
    decreases at - k,
{
    if k < at {
        assert(!on(lines[k], event));
        lemma_under(lines, k + 1, at, event);
    }
}

/// A click on a row puts the focus on it, as far down the list as it stands from the first row
/// drawn; a click on a tab brings that tab to the front, from its top.
pub proof fn a_click_takes_what_it_is_on(screen: ScreenView, event: MouseEvent, at: int)
    requires
        screen.capture is None,
        event.kind == MouseEventKind::Down(MouseButton::Left),
        forall|i: int| 0 <= i < screen.tabs.len() ==> (#[trigger] screen.tabs[i]).fits(),
        forall|i: int| 0 <= i < screen.drawn.len() ==> (#[trigger] screen.drawn[i]).fits(),
        screen.scroll + screen.drawn.len() <= usize::MAX,
        0 <= at,
    ensures
        at < screen.tabs.len() <= 4 && on(screen.tabs[at], event) && (forall|i: int|
            0 <= i < at ==> !on(#[trigger] screen.tabs[i], event)) ==> screen.after_mouse(
            event,
        ).scope == at && screen.after_mouse(event).cursor == 0,
        at < screen.drawn.len() && on(screen.drawn[at], event) && (forall|i: int|
            0 <= i < at ==> !on(#[trigger] screen.drawn[i], event)) && (forall|i: int|
            0 <= i < screen.tabs.len() ==> !on(#[trigger] screen.tabs[i], event))
            ==> screen.after_mouse(event) == (ScreenView {
            cursor: (screen.scroll + at) as usize,
            ..screen
        }),
{
    if at < screen.tabs.len() && on(screen.tabs[at], event) && (forall|i: int|
        0 <= i < at ==> !on(#[trigger] screen.tabs[i], event)) {
        lemma_under(screen.tabs, 0, at, event);
    }
    if at < screen.drawn.len() && on(screen.drawn[at], event) && (forall|i: int|
        0 <= i < at ==> !on(#[trigger] screen.drawn[i], event)) && (forall|i: int|
        0 <= i < screen.tabs.len() ==> !on(#[trigger] screen.tabs[i], event)) {
        lemma_under(screen.tabs, 0, screen.tabs.len() as int, event);
        lemma_under(screen.drawn, 0, at, event);
    }
}

/// The wheel scrolls the list, down when it is turned down and up when it is turned up, three
/// rows at a time and no further than there are rows; while keys are being pressed for a
/// shortcut the mouse does nothing.
pub proof fn the_wheel_scrolls_the_list(screen: ScreenView, event: MouseEvent)
    ensures
        screen.capture is Some ==> screen.after_mouse(event) == screen,
        screen.capture is None && event.kind == MouseEventKind::ScrollDown && screen.scroll + 3
            + screen.page <= screen.shown().len() ==> screen.after_mouse(event) == (ScreenView {
            scroll: (screen.scroll + 3) as usize,
            ..screen
        }),
        screen.capture is None && event.kind == MouseEventKind::ScrollUp && 3 <= screen.scroll
            && screen.scroll + screen.page <= screen.shown().len() ==> screen.after_mouse(event)
            == (ScreenView { scroll: (screen.scroll - 3) as usize, ..screen }),
{
}

} // verus!
