//! What is marked in the text: selections, cursors, rulers, and what is told of a line.

use crate::editor::diagnostics::{clipped, told_lines, told_on, Writing};
use crate::editor::highlights::{draws_cursor, rulers_shown, scopes_for, spans_for, Cursors,
    Diagnostic, Highlight, Scopes, Selected, Severity, Theme};
use crate::graphics::Rect;
use crate::keymap::Mode;
use crate::width::width_of_text;
use vstd::prelude::*;

verus! {

/// A selection and its cursor, where the editor draws it, are all that is selected and nothing
/// else: the one ends where the other begins, and the cursor is at the end that moves.
pub proof fn a_selection_is_marked_whole(
    range: Selected,
    len: usize,
    primary: bool,
    scopes: Scopes,
    cursors: Cursors,
)
    requires
        !(range.head == range.anchor && range.head == len),
        !primary || (cursors.block && cursors.drawn),
    ensures
        ({
            let spans = spans_for(range, len, primary, scopes, cursors);
            let (anchor, head) = range.wide;
            &&& spans.len() == 2
            &&& head > anchor ==> {
                &&& spans[0] == (scopes.selection, (anchor, range.before))
                &&& spans[1] == (scopes.cursor, (range.before, head))
            }
            &&& head <= anchor ==> {
                &&& spans[0] == (scopes.cursor, (head, range.after))
                &&& spans[1] == (scopes.selection, (range.after, anchor))
            }
        }),
{
}

/// A cursor that the terminal draws is not drawn over, and one of many that it does not draw
/// always is. A bar before a character leaves that one to the selection, unless typing would
/// put text beside it.
pub proof fn the_terminal_draws_its_cursor(
    range: Selected,
    len: usize,
    scopes: Scopes,
    cursors: Cursors,
    i: int,
)
    requires
        scopes.cursor != scopes.selection,
        !cursors.block,
    ensures
        ({
            let spans = spans_for(range, len, true, scopes, cursors);
            let (anchor, head) = range.wide;
            let insert = cursors.mode == Mode::Insert;
            &&& 0 <= i < spans.len() ==> spans[i].0 == scopes.selection
            &&& !(range.head == range.anchor && range.head == len) && head > anchor && !insert
                ==> spans == seq![(scopes.selection, (anchor, head))]
            &&& !(range.head == range.anchor && range.head == len) && head > anchor && insert
                && !cursors.replaces ==> spans == seq![(scopes.selection, (anchor, range.before))]
        }),
        draws_cursor(false, cursors),
        !draws_cursor(true, cursors),
{
}

/// The cursor at the end of the text is drawn behind its last character.
pub proof fn a_cursor_at_the_end_is_drawn(
    range: Selected,
    len: usize,
    primary: bool,
    scopes: Scopes,
    cursors: Cursors,
)
    requires
        range.head == len,
        range.anchor == len,
        len < usize::MAX,
        !primary || (cursors.block && cursors.drawn),
    ensures
        spans_for(range, len, primary, scopes, cursors) == seq![
            (scopes.cursor, (len, (len + 1) as usize)),
        ],
{
}

/// A cursor looks as the theme has it for its mode, and the one that is in front as the theme
/// has that; where the theme says nothing, it looks as cursors do, and then as selections.
pub proof fn a_cursor_looks_like_its_mode(
    theme: Theme,
    primary_cursor: Option<Highlight>,
    mode: Mode,
)
    requires
        theme.scope("ui.selection"@) is Some,
    ensures
        ({
            let front = scopes_for(theme, primary_cursor, mode, true);
            let other = scopes_for(theme, primary_cursor, mode, false);
            let selection = theme.scope("ui.selection"@)->0;
            let own = match mode {
                Mode::Insert => theme.scope("ui.cursor.insert"@),
                Mode::Select => theme.scope("ui.cursor.select"@),
                Mode::Normal => theme.scope("ui.cursor.normal"@),
            };
            let own_front = match mode {
                Mode::Insert => theme.scope("ui.cursor.primary.insert"@),
                Mode::Select => theme.scope("ui.cursor.primary.select"@),
                Mode::Normal => theme.scope("ui.cursor.primary.normal"@),
            };
            &&& own is Some ==> other.cursor == own->0
            &&& own is None && theme.scope("ui.cursor"@) is Some ==> other.cursor == theme.scope(
                "ui.cursor"@,
            )->0
            &&& own is None && theme.scope("ui.cursor"@) is None ==> other.cursor == selection
            &&& own_front is Some ==> front.cursor == own_front->0
            &&& own_front is None && primary_cursor is Some ==> front.cursor == primary_cursor->0
            &&& other.selection == selection
            &&& theme.scope("ui.selection.primary"@) is Some ==> front.selection == theme.scope(
                "ui.selection.primary"@,
            )->0
        }),
{
}

/// A ruler stands behind so many columns of the text, counted from where the view is scrolled
/// to, from its top to its bottom; one that is scrolled away is not drawn.
pub proof fn a_ruler_stands_at_its_column(ruler: u16, offset: u16, viewport: Rect)
    requires
        viewport.fits(),
        ruler > 0,
    ensures
        ({
            let shown = rulers_shown(seq![ruler], offset as int, viewport, 1);
            let column = viewport.x + (ruler - 1 - offset);
            &&& shown.len() == 1 <==> viewport.x <= column < viewport.x + viewport.width
            &&& shown.len() == 1 ==> shown[0] == (Rect {
                x: column as u16,
                y: viewport.y,
                width: 1,
                height: viewport.height,
            })
            &&& shown.len() <= 1
        }),
{
    reveal_with_fuel(rulers_shown, 2);
}

/// What is told in the box of a line is what is wrong with that line: errors and warnings, and
/// what says neither. A hint interrupts nobody.
pub proof fn errors_are_told_and_hints_are_not(diagnostic: Diagnostic, line: usize)
    ensures
        told_on(diagnostic, line) ==> diagnostic.line == line,
        diagnostic.line == line && diagnostic.severity == Some(Severity::Error) ==> told_on(
            diagnostic,
            line,
        ),
        diagnostic.line == line && diagnostic.severity == Some(Severity::Warning) ==> told_on(
            diagnostic,
            line,
        ),
        diagnostic.severity == Some(Severity::Hint) || diagnostic.severity == Some(Severity::Info)
            ==> !told_on(diagnostic, line),
{
}

/// Where nothing is wrong with a line there is nothing in its box, and each message is told in
/// its turn, an error as one.
pub proof fn messages_are_told_in_turn(
    diagnostics: Seq<Diagnostic>,
    line: usize,
    width: int,
    n: nat,
)
    requires
        n < diagnostics.len(),
    ensures
        ({
            let before = told_lines(diagnostics, line, width, n);
            let after = told_lines(diagnostics, line, width, n + 1);
            let diagnostic = diagnostics[n as int];
            &&& after.len() >= before.len()
            &&& forall|i: int| 0 <= i < before.len() ==> #[trigger] after[i] == before[i]
            &&& diagnostic.line != line ==> after == before
            &&& forall|i: int|
                before.len() <= i < after.len() ==> (#[trigger] after[i]).1 == (diagnostic.severity
                    == Some(Severity::Error))
        }),
{
}

/// What there is no room for is left out at the end, and the last line that is shown says so.
pub proof fn what_is_left_out_is_told(lines: Seq<(Seq<char>, bool)>, rows: int)
    requires
        rows > 0,
    ensures
        ({
            let shown = clipped(lines, rows);
            &&& lines.len() <= rows ==> shown == lines
            &&& lines.len() > rows ==> {
                &&& shown.len() == rows
                &&& shown.last().0 == lines[rows - 1].0 + "\u{2026}"@
                &&& forall|i: int| 0 <= i < rows - 1 ==> #[trigger] shown[i] == lines[i]
            }
        }),
{
}

/// A word of a message goes behind the one before it, a space between them, where there is room
/// for it on the line, and begins a line where there is none.
pub proof fn a_word_is_told_where_it_fits(writing: Writing, word: Seq<char>, width: int)
    requires
        writing.line.len() > 0,
        width_of_text(word) <= width,
        width_of_text(writing.line + " "@ + word) == width_of_text(writing.line) + 1
            + width_of_text(word),
    ensures
        ({
            let after = writing.with_word(word, width);
            let room = width_of_text(writing.line) + 1 + width_of_text(word) <= width;
            &&& room ==> after == (Writing {
                lines: writing.lines,
                line: writing.line + " "@ + word,
            })
            &&& !room ==> after == (Writing { lines: writing.lines.push(writing.line), line: word })
        }),
{
}

} // verus!
