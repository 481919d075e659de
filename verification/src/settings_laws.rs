//! What the keys and the mouse come to on the screen of the settings.

use crate::filter::{answers, the_filter_shows_what_answers, words_of};
use crate::graphics::Rect;
use crate::input::{KeyCode, KeyEvent, MouseButton, MouseEvent, MouseEventKind};
use crate::settings::{all_settings, laid_out, next_of, row_under, searched_text, shown_for,
    AnswerView, KindView, SettingLine, SettingView, Settings, SettingsTask};
use crate::text::lowercase_of;
use vstd::arithmetic::div_mod::{lemma_mod_self_0, lemma_small_mod};
use vstd::prelude::*;

verus! {

/// Down goes to the setting below and Up to the one above, round the ends, whatever is held;
/// nothing is changed by it.
pub proof fn the_arrows_walk_the_settings(screen: Settings, key: KeyEvent)
    requires
        screen.cursor < shown_for(screen.query@).len(),
    ensures
        ({
            let count = shown_for(screen.query@).len();
            let (task, cursor, query) = screen.keyed(key);
            let down = key.code == KeyCode::Down || key.code == KeyCode::Tab;
            &&& down || key.code == KeyCode::Up ==> task == SettingsTask::Nothing && query
                == screen.query@
            &&& down && screen.cursor + 1 < count ==> cursor == screen.cursor + 1
            &&& down && screen.cursor + 1 == count ==> cursor == 0
            &&& key.code == KeyCode::Up && screen.cursor > 0 ==> cursor == screen.cursor - 1
            &&& key.code == KeyCode::Up && screen.cursor == 0 ==> cursor == count - 1
        }),
{
    let count = shown_for(screen.query@).len();
    if screen.cursor + 1 < count {
        lemma_small_mod((screen.cursor + 1) as nat, count);
    } else {
        lemma_mod_self_0(count as int);
    }
}

/// Space, Enter and the arrows across change the setting in focus, and Esc closes the screen:
/// the focus and what was typed stay. No other key does either.
pub proof fn keys_change_the_setting_in_focus(screen: Settings, key: KeyEvent)
    ensures
        ({
            let (task, cursor, query) = screen.keyed(key);
            &&& task == SettingsTask::Change <==> (key.code == KeyCode::Char(' ') || key.code
                == KeyCode::Enter || key.code == KeyCode::Left || key.code == KeyCode::Right)
            &&& task == SettingsTask::Close <==> key.code == KeyCode::Esc
            &&& task != SettingsTask::Nothing ==> cursor == screen.cursor && query == screen.query@
        }),
{
}

/// A letter comes behind what was typed and puts the focus on the first setting; Backspace
/// takes it away again. With Ctrl, Alt or Cmd held it is not typed.
pub proof fn typing_narrows_the_settings(screen: Settings, typed: Settings, key: KeyEvent, c: char)
    requires
        key.code == KeyCode::Char(c),
        c != ' ',
    ensures
        ({
            let (task, cursor, query) = screen.keyed(key);
            let held = key.modifiers.control || key.modifiers.alt || key.modifiers.meta;
            &&& task == SettingsTask::Nothing
            &&& held ==> cursor == screen.cursor && query == screen.query@
            &&& !held ==> {
                &&& cursor == 0
                &&& query.len() == screen.query@.len() + 1
                &&& query.last() == c
                &&& forall|i: int|
                    0 <= i < screen.query@.len() ==> #[trigger] query[i] == screen.query@[i]
                &&& forall|back: KeyEvent|
                    typed.query@ == query && back.code == KeyCode::Backspace
                        ==> #[trigger] typed.keyed(back) == (
                        SettingsTask::Nothing,
                        0int,
                        screen.query@,
                    )
            }
        }),
{
    let (task, cursor, query) = screen.keyed(key);
    assert(screen.query@.push(c).drop_last() =~= screen.query@);
}

/// Whether a cell of the screen is on a line of it.
pub open spec fn covers(line: Rect, row: u16, column: u16) -> bool {
    row == line.y && line.x <= column && column < line.x + line.width
}

proof fn lemma_under(lines: Seq<Rect>, k: int, at: int, row: u16, column: u16)
    requires
        0 <= k <= at < lines.len(),
        forall|i: int| 0 <= i < lines.len() ==> (#[trigger] lines[i]).fits(),
        covers(lines[at], row, column),
        forall|i: int| 0 <= i < at ==> !covers(#[trigger] lines[i], row, column),
    ensures
        row_under(lines, k, row, column) == at,
    decreases at - k,
{
    assert(lines[k].fits());
    if k < at {
        assert(!covers(lines[k], row, column));
        lemma_under(lines, k + 1, at, row, column);
    }
}

proof fn lemma_under_none(lines: Seq<Rect>, k: int, row: u16, column: u16)
    requires
        0 <= k <= lines.len(),
        forall|i: int| 0 <= i < lines.len() ==> (#[trigger] lines[i]).fits(),
        forall|i: int| 0 <= i < lines.len() ==> !covers(#[trigger] lines[i], row, column),
    ensures
        row_under(lines, k, row, column) == lines.len(),
    decreases lines.len() - k,
{
    if k < lines.len() {
        assert(lines[k].fits());
        assert(!covers(lines[k], row, column));
        lemma_under_none(lines, k + 1, row, column);
    }
}

/// A click with the left button changes the setting whose line it is on. Anywhere else, and
/// with any other button, it does nothing.
pub proof fn a_click_changes_what_it_is_on(screen: Settings, event: MouseEvent, at: int)
    requires
        forall|i: int| 0 <= i < screen.rows@.len() ==> (#[trigger] screen.rows@[i]).fits(),
    ensures
        event.kind == MouseEventKind::Down(MouseButton::Left) && 0 <= at < screen.rows@.len()
            && covers(screen.rows@[at], event.row, event.column) && (forall|i: int|
            0 <= i < at ==> !covers(#[trigger] screen.rows@[i], event.row, event.column))
            ==> screen.moused(event) == (SettingsTask::Change, at),
        (forall|i: int|
            0 <= i < screen.rows@.len() ==> !covers(
                #[trigger] screen.rows@[i],
                event.row,
                event.column,
            )) ==> screen.moused(event) == (SettingsTask::Nothing, screen.cursor as int),
        event.kind != MouseEventKind::Down(MouseButton::Left) ==> screen.moused(event) == (
            SettingsTask::Nothing,
            screen.cursor as int,
        ),
{
    if 0 <= at < screen.rows@.len() && covers(screen.rows@[at], event.row, event.column) && (
    forall|i: int| 0 <= i < at ==> !covers(#[trigger] screen.rows@[i], event.row, event.column)) {
        lemma_under(screen.rows@, 0, at, event.row, event.column);
    }
    if forall|i: int|
        0 <= i < screen.rows@.len() ==> !covers(
            #[trigger] screen.rows@[i],
            event.row,
            event.column,
        ) {
        lemma_under_none(screen.rows@, 0, event.row, event.column);
    }
}

/// The settings that are listed are those in whose label, other words or key every word typed
/// is found, small letters and capitals alike, in the order of the list.
pub proof fn what_answers_is_offered(query: Seq<char>, setting: usize)
    requires
        setting < all_settings().len(),
    ensures
        ({
            let shown = shown_for(query);
            let text = lowercase_of(
                all_settings()[setting as int].label + " "@ + all_settings()[setting as int].also
                    + " "@ + all_settings()[setting as int].key,
            );
            &&& shown.contains(setting) <==> answers(text, words_of(lowercase_of(query)))
            &&& forall|i: int, j: int|
                0 <= i < j < shown.len() ==> #[trigger] shown[i] < #[trigger] shown[j]
        }),
{
    let texts = all_settings().map_values(|setting: SettingView| searched_text(setting));
    the_filter_shows_what_answers(texts, words_of(lowercase_of(query)), all_settings().len());
    assert(texts[setting as int] == searched_text(all_settings()[setting as int]));
}

/// The lines stand one below the other, as wide as the inside of the border and within it; on
/// each is the setting that is shown there, its value ends where the line does, and the one in
/// focus is marked, and no other.
pub proof fn each_setting_has_its_line(
    before: Settings,
    area: Rect,
    keys: Seq<Seq<char>>,
    values: Seq<Seq<char>>,
    cursor: int,
    screen: Rect,
    inner: Rect,
    lines: Seq<SettingLine>,
    at: int,
)
    requires
        laid_out(before, area, keys, values, cursor, screen, inner, lines),
        area.fits(),
        0 <= at < lines.len(),
    ensures
        ({
            let shown = shown_for(before.query@);
            let line = lines[at];
            let value = values[shown[at] as int].len();
            &&& at < shown.len()
            &&& line.setting == shown[at]
            &&& line.line.x == inner.x && line.line.width == inner.width && line.line.height == 1
            &&& at > 0 ==> line.line.y == lines[at - 1].line.y + 1
            &&& inner.y < line.line.y < inner.y + inner.height
            &&& line.focused <==> at == cursor
            &&& value <= inner.width ==> line.value_x + value == inner.x + inner.width
        }),
        before.cursor < shown_for(before.query@).len() ==> cursor == before.cursor,
{
    assert(lines[at].setting == shown_for(before.query@)[at]);
    if at > 0 {
        assert(lines[at - 1].line.x == inner.x);
    }
}

/// What a switch, or one of a few words, is changed to is never what it was, and is one of the
/// words.
pub proof fn a_change_is_a_change(kind: KindView, current: AnswerView)
    ensures
        next_of(kind, current) matches Some(next) ==> match kind {
            KindView::Switch => current is Switch && next is Switch && next != current,
            KindView::Words(words) => current is Word && exists|i: int|
                0 <= i < words.len() && next == AnswerView::Word((#[trigger] words[i]).0),
        },
        kind is Switch && current is Switch ==> next_of(kind, current) is Some,
        kind matches KindView::Words(words) ==> words.len() > 0 && current is Word ==> next_of(
            kind,
            current,
        ) is Some,
{
    if let KindView::Words(words) = kind {
        if let AnswerView::Word(word) = current {
            if words.len() > 0 {
                let i = match crate::settings::word_at(words, 0, word) {
                    Some(at) => (at + 1) % words.len() as int,
                    None => 0,
                };
                assert(0 <= i < words.len());
                assert(next_of(kind, current) == Some(AnswerView::Word(words[i].0)));
            }
        }
    }
}

} // verus!
