//! The editor's view.

use sid_term::editor::bufferline::{
    bufferline_height, bufferline_shaped, bufferline_styles, half_block, list_tabs, tabs_that_fit,
    Bufferline, BufferlineHit, OpenFile,
};
use sid_term::editor::diagnostics::{diagnostic_at, diagnostics_box, wrap_to_width};
use sid_term::editor::highlights::{
    cursor_column, gutter_places, gutter_shade, review_lines, ruler_areas, CursorLine, Cursors,
    Diagnostic, DiagnosticTag, GutterShade, Overlay, Selected, Severity, Theme,
};
use sid_term::editor::keys::{
    after_command, cancelled, canonicalize_key, command_mode, completion_step, count_after,
    register_after, route, shift_changes, stores_history, take_register, unbound, CancelStep, ClearStep, CompleteAction, CountStep,
    CursorKind, InsertEvent, InsertStep, KeyFacts, KeyRoute, MenuAnswer, OnKeyCallbackKind, Replay,
    ReplayStep,
};
use sid_term::editor::layout::{
    draw_last_row, last_row, lay_out_view, mark_frame_line, pending_text, view_layers,
    workspace_trust_indicator_visible, BufferLine, Layer, Screen, Shown, ViewFacts,
};
use sid_term::editor::menus::{
    close_bufferline_tab, open_editor_menu, open_review_menu, open_tab_menu, CloseFailure,
    CloseStep, MenuCommand, Panels,
};
use sid_term::editor::mouse::{
    closes_preview, drag_beyond, drag_cell, drag_place, is_jump, line_range, mouse_selection_done,
    points_at_selection, ClickAction, ClickUnit, HoverLook, HoverStep, Mouse, MouseTask,
    PointerShape, Range, Under,
};
use sid_term::editor::view::EditorView;
use sid_term::graphics::{Color, Rect, Style, UnderlineStyle};
use sid_term::input::{KeyCode, KeyEvent, KeyModifiers, MouseButton, MouseEvent, MouseEventKind};
use sid_term::keymap::Mode;
use sid_term::theme::ThemeStyles;

const NONE: KeyModifiers = KeyModifiers { shift: false, control: false, alt: false, meta: false };

fn press(c: char) -> KeyEvent {
    KeyEvent { code: KeyCode::Char(c), modifiers: NONE }
}

fn mouse(kind: MouseEventKind, row: u16, column: u16) -> MouseEvent {
    MouseEvent { kind, row, column, modifiers: NONE }
}

fn rect(x: u16, y: u16, width: u16, height: u16) -> Rect {
    Rect { x, y, width, height }
}

// Tabs

fn files(names: &[&str]) -> Vec<OpenFile> {
    names
        .iter()
        .enumerate()
        .map(|(id, name)| OpenFile { id, name: name.to_string(), modified: id == 1 })
        .collect()
}

#[test]
fn tabs_are_named_by_their_files() {
    let tabs = list_tabs(&files(&["a.rs", "b.rs"]), 1, false);
    assert_eq!(tabs[0].name, "  a.rs  ");
    assert_eq!((tabs[0].mark, tabs[1].mark), ("\u{d7}", "\u{25cf}"));
    assert!(tabs[1].active && !tabs[0].active);
    assert_eq!(tabs[0].width(), 11);
    // A preview that fills the screen is a tab of its own, and the one lit.
    let tabs = list_tabs(&files(&["a.md", "b.rs"]), 0, true);
    assert_eq!(tabs.len(), 3);
    assert!(!tabs[0].active && tabs[1].active && tabs[1].preview);
    assert_eq!(tabs[1].name, "  a.md \u{2713}  ");
}

#[test]
fn only_whole_tabs_are_shown() {
    let tabs = list_tabs(&files(&["a.rs", "b.rs", "c.rs"]), 0, false);
    // Three tabs of eleven columns, one column between them.
    assert_eq!(tabs_that_fit(&tabs, 0, 35), 3);
    assert_eq!(tabs_that_fit(&tabs, 0, 34), 2);
    assert_eq!(tabs_that_fit(&tabs, 0, 25), 2);
    assert_eq!(tabs_that_fit(&tabs, 0, 24), 1);
    assert_eq!(tabs_that_fit(&tabs, 1, 25), 2);
    assert_eq!(tabs_that_fit(&tabs, 1, 24), 1);
}

#[test]
fn the_tab_in_front_is_on_screen_and_can_be_clicked() {
    let tabs = list_tabs(&files(&["a.rs", "b.rs", "c.rs"]), 2, false);
    let mut strip = Bufferline::new();
    strip.lay_out(&tabs, rect(10, 0, 26, 2), 2);
    assert_eq!(strip.first, 1);
    assert_eq!(strip.tabs.len(), 2);
    assert!(strip.back.is_some() && strip.forward.is_none());
    let tab = strip.tabs[1];
    assert_eq!(tab.area, rect(24, 0, 11, 2));
    assert_eq!(tab.close, 32);
    assert_eq!(strip.bufferline_hit(0, 25), Some(BufferlineHit::Open(2)));
    assert_eq!(strip.bufferline_hit(1, 33), Some(BufferlineHit::Close(2)));
    assert_eq!(strip.bufferline_hit(0, 23), None);
    strip.clear();
    assert_eq!(strip.bufferline_hit(0, 25), None);
    assert_eq!(strip.first, 1);
}

fn styles(scopes: &[(&str, Style)]) -> ThemeStyles {
    ThemeStyles { scopes: scopes.iter().map(|(name, style)| (name.to_string(), *style)).collect() }
}

fn on(bg: Color) -> Style {
    Style { bg: Some(bg), ..Style::plain() }
}

#[test]
fn the_tab_in_front_is_told_by_its_style() {
    let theme = styles(&[
        ("ui.bufferline.background", on(Color::Gray)),
        ("ui.bufferline.active", on(Color::Blue)),
        ("ui.statusline.inactive", Style { fg: Some(Color::White), ..Style::plain() }),
        ("ui.background", on(Color::Black)),
    ]);
    let drawn = bufferline_styles(&theme);
    assert!(drawn.shaped);
    assert_eq!(drawn.bar, on(Color::Gray));
    let unruled = Style { underline_style: Some(UnderlineStyle::Reset), ..on(Color::Blue) };
    assert_eq!(drawn.active, unruled);
    assert_eq!(drawn.inactive, Style { fg: Some(Color::White), ..Style::plain() });
    // Without a colour of its own it is cut out of the bar, in bold.
    let flat = bufferline_styles(&styles(&[("ui.statusline.active", on(Color::Blue))]));
    assert_eq!(flat.active, Style { bg: Some(Color::Reset), ..unruled }.bold());

    let tabs = list_tabs(&files(&["a.rs", "b.rs"]), 1, false);
    let mut strip = Bufferline::new();
    strip.lay_out(&tabs, rect(0, 0, 60, 2), 2);
    let texts = strip.texts(&tabs, drawn);
    let names: Vec<_> = texts.iter().map(|text| (text.x, text.text.as_str())).collect();
    assert_eq!(
        names,
        [(0, "  a.rs  "), (8, "\u{d7}"), (9, "  "), (12, "  b.rs  "), (20, "\u{25cf}"), (21, "  ")]
    );
    assert_eq!((texts[0].style, texts[3].style), (drawn.inactive, drawn.active));
    // Under the tab in front its own colour runs on, under the others the bar's.
    let under = |column| strip.cell_under(&tabs, drawn, column).unwrap();
    assert_eq!(under(13), half_block(Some(Color::Blue), Some(Color::Black)));
    assert_eq!(under(2), half_block(Some(Color::Gray), Some(Color::Black)));
    assert_eq!(under(40), half_block(Some(Color::Gray), Some(Color::Black)));
    assert!(strip.cell_under(&tabs, flat, 2).is_none());

    // The marks at the edges wear what the other tabs do.
    let many = list_tabs(&files(&["a.rs", "b.rs", "c.rs"]), 1, false);
    strip.lay_out(&many, rect(0, 0, 16, 2), 2);
    let texts = strip.texts(&many, drawn);
    let (first, last) = (&texts[0], &texts[texts.len() - 1]);
    assert_eq!((first.x, first.text.as_str(), first.style), (0, "\u{2039}", drawn.inactive));
    assert_eq!((last.x, last.text.as_str(), last.style), (15, "\u{203a}", drawn.inactive));
}

#[test]
fn tabs_have_a_shape_where_the_theme_has_colours_for_it() {
    let (red, blue) = (Some(Color::Red), Some(Color::Blue));
    let colours = |bar, active, editor| {
        styles(&[
            ("ui.statusline", Style { bg: bar, ..Style::plain() }),
            ("ui.bufferline.active", Style { bg: active, ..Style::plain() }),
            ("ui.background", Style { bg: editor, ..Style::plain() }),
        ])
    };
    assert_eq!(bufferline_height(&colours(red, blue, red)), 2);
    assert_eq!(bufferline_height(&colours(red, red, red)), 1);
    assert_eq!(bufferline_height(&colours(red, blue, None)), 1);
    assert!(bufferline_shaped(&colours(None, blue, red)));
    assert!(!bufferline_shaped(&colours(None, None, red)));
    assert_eq!(half_block(red, red).symbol, ' ');
    assert_eq!(half_block(red, blue).symbol, '\u{2584}');
    assert_eq!(half_block(red, None).fg, red);
    assert_eq!(half_block(red, None).bg, Color::Reset);
}

// Highlights

fn theme(names: &[&str]) -> Theme {
    Theme {
        scopes: names.iter().enumerate().map(|(at, name)| (name.to_string(), at as u32)).collect(),
    }
}

fn diagnostic(range: (usize, usize), severity: Option<Severity>, tags: Vec<DiagnosticTag>) -> Diagnostic {
    Diagnostic {
        range,
        line: 0,
        message: "unused variable".into(),
        severity,
        code: None,
        source: None,
        tags,
    }
}

fn ranges(overlay: &Overlay) -> Vec<(usize, usize)> {
    match overlay {
        Overlay::Homogeneous { ranges, .. } => ranges.clone(),
        Overlay::Heterogenous { .. } => panic!("one scope"),
    }
}

#[test]
fn diagnostics_that_overlap_are_one_stretch() {
    let theme = theme(&["ui.selection", "diagnostic.error", "diagnostic.unnecessary"]);
    let mut overlays = Vec::new();
    EditorView::doc_diagnostics_highlights_into(&vec![], &theme, &mut overlays);
    assert!(overlays.is_empty());
    let diagnostics = vec![
        diagnostic((0, 4), Some(Severity::Error), vec![]),
        diagnostic((2, 6), Some(Severity::Error), vec![DiagnosticTag::Unnecessary]),
        diagnostic((8, 9), Some(Severity::Hint), vec![DiagnosticTag::Unnecessary]),
        diagnostic((9, 12), Some(Severity::Error), vec![DiagnosticTag::Deprecated]),
    ];
    EditorView::doc_diagnostics_highlights_into(&diagnostics, &theme, &mut overlays);
    // The shades in order, without the tag the theme has no scope for.
    assert_eq!(overlays.len(), 6);
    assert_eq!(ranges(&overlays[1]), [(2, 6), (8, 9)]);
    assert!(ranges(&overlays[3]).is_empty(), "a hint with a tag is told by its tag alone");
    assert_eq!(ranges(&overlays[5]), [(0, 6), (9, 12)]);
    assert!(matches!(overlays[5], Overlay::Homogeneous { highlight: 1, .. }));
    assert!(matches!(overlays[0], Overlay::Homogeneous { highlight: 0, .. }));
}

#[test]
fn links_and_marks_are_drawn_where_they_are() {
    let links = vec![(0, 3), (2, 5), (7, 7), (8, 9)];
    assert!(EditorView::doc_document_link_highlights(&links, &theme(&[])).is_none());
    let overlay = EditorView::doc_document_link_highlights(&links, &theme(&["markup.link"])).unwrap();
    assert_eq!(ranges(&overlay), [(0, 5), (8, 9)]);
    assert!(EditorView::doc_document_link_highlights(&vec![(3, 3)], &theme(&["markup.link"])).is_none());
    let marked = vec![(1, 2)];
    assert_eq!(
        ranges(&EditorView::doc_document_highlights(Some(&marked), &theme(&["ui.cursor"])).unwrap()),
        [(1, 2)]
    );
    assert!(EditorView::doc_document_highlights(None, &theme(&["ui.cursor"])).is_none());
    assert_eq!(ranges(&EditorView::highlight_focused_view_elements(Some(4), &theme(&["ui.cursor.match"])).unwrap()), [(4, 5)]);
    assert!(EditorView::highlight_focused_view_elements(None, &theme(&["ui.cursor.match"])).is_none());
    let stops = vec![vec![(0, 1)], vec![(4, 5), (6, 7)]];
    assert_eq!(
        ranges(&EditorView::tabstop_highlights(Some(&stops), &theme(&["tabstop"])).unwrap()),
        [(0, 1), (4, 5), (6, 7)]
    );
}

#[test]
fn a_selection_and_its_cursor_are_drawn_apart() {
    let theme = theme(&["ui.selection", "ui.cursor", "ui.selection.primary"]);
    let forward = Selected { anchor: 2, head: 6, wide: (2, 6), before: 5, after: 7 };
    let backward = Selected { anchor: 6, head: 2, wide: (6, 2), before: 1, after: 3 };
    let block = Cursors { mode: Mode::Normal, block: true, drawn: true, replaces: false };
    let spans = EditorView::doc_selection_highlights(&vec![forward], 0, 20, &theme, None, block);
    assert_eq!(spans, [(2, (2, 5)), (1, (5, 6))]);
    let spans = EditorView::doc_selection_highlights(&vec![forward, backward], 0, 20, &theme, None, block);
    assert_eq!(spans[2..], [(1, (2, 3)), (0, (3, 6))]);
    // A bar looks as if it stood before the character.
    let bar = Cursors { block: false, ..block };
    let spans = EditorView::doc_selection_highlights(&vec![forward], 0, 20, &theme, None, bar);
    assert_eq!(spans, [(2, (2, 6))]);
    let typing = Cursors { mode: Mode::Insert, ..bar };
    let spans = EditorView::doc_selection_highlights(&vec![forward], 0, 20, &theme, None, typing);
    assert_eq!(spans, [(2, (2, 5))]);
    // At the end of the text there is only the cursor.
    let end = Selected { anchor: 20, head: 20, wide: (20, 20), before: 19, after: 20 };
    assert_eq!(
        EditorView::doc_selection_highlights(&vec![end], 0, 20, &theme, Some(7), block),
        [(7, (20, 21))]
    );
}

#[test]
fn lines_and_columns_of_the_screen() {
    let lines = vec![0, 10, 20, 30];
    assert_eq!(EditorView::viewport_byte_range(&lines, 0, 2), (0, 20));
    assert_eq!(EditorView::viewport_byte_range(&lines, 9, 2), (20, 30));
    assert_eq!(
        ruler_areas(None, &vec![5, 80], 0, rect(10, 0, 40, 20)),
        [rect(14, 0, 1, 20)]
    );
    assert_eq!(
        ruler_areas(Some(&vec![5]), &vec![80], 2, rect(10, 0, 40, 20)),
        [rect(12, 0, 1, 20)]
    );
    assert_eq!(EditorView::cursorline(3, 3, &vec![1, 3]), CursorLine::Primary);
    assert_eq!(EditorView::cursorline(1, 3, &vec![1, 3]), CursorLine::Secondary);
    assert_eq!(EditorView::cursorline(2, 3, &vec![1, 3]), CursorLine::Plain);
    let inner = rect(5, 0, 20, 9);
    assert_eq!(cursor_column(7, 2, inner, rect(0, 0, 25, 10)), Some(rect(10, 0, 1, 10)));
    assert_eq!(cursor_column(1, 2, inner, rect(0, 0, 25, 10)), None);
    assert_eq!(cursor_column(22, 2, inner, rect(0, 0, 25, 10)), None);
    assert_eq!(gutter_shade(true, false), GutterShade::SelectedVirtual);
    assert_eq!(gutter_places(&vec![2, 4, 1], 3), [3, 5, 9]);
    assert_eq!(review_lines(5, 10, 100), (5, 16));
    assert_eq!(review_lines(5, 10, 12), (5, 12));
}

// Messages

#[test]
fn a_message_is_cut_between_words_where_it_can_be() {
    assert_eq!(wrap_to_width("one two three", 7), ["one two", "three"]);
    assert_eq!(wrap_to_width("abcdefghij xy", 4), ["abcd", "efgh", "ij", "xy"]);
    assert!(wrap_to_width("  ", 4).is_empty());
    assert_eq!(wrap_to_width("\u{4e2d}\u{6587}\u{5b57}", 4), ["\u{4e2d}\u{6587}", "\u{5b57}"]);
    // A word wider than the box is cut, its characters staying in order.
    assert_eq!(wrap_to_width("ab\u{4e2d}c", 3), ["ab", "\u{4e2d}c"]);
    assert_eq!(wrap_to_width("\u{65e5}\u{672c}a", 3), ["\u{65e5}", "\u{672c}a"]);
    // One column is enough for characters of one column.
    assert_eq!(wrap_to_width("ab c", 1), ["a", "b", "c"]);
    assert_eq!(wrap_to_width("a bc d", 2), ["a", "bc", "d"]);
    // An emoji selector makes what stands before it wide.
    assert_eq!(wrap_to_width("ab\u{2764}\u{fe0f}", 3), ["ab\u{2764}", "\u{fe0f}"]);
}

#[test]
fn what_is_wrong_is_told_beside_the_line() {
    let viewport = rect(0, 0, 40, 20);
    let mut wrong = diagnostic((0, 1), Some(Severity::Error), vec![]);
    wrong.code = Some("E1".into());
    let diagnostics = vec![wrong, diagnostic((0, 1), Some(Severity::Hint), vec![])];
    let told = diagnostics_box(&diagnostics, 0, Some((3, 5)), viewport).unwrap();
    assert_eq!(told.lines, [("unused variable (E1)".to_string(), true)]);
    assert_eq!(told.area, rect(5, 4, 24, 3));
    // Over the line where there is no room under it.
    let told = diagnostics_box(&diagnostics, 0, Some((18, 30)), viewport).unwrap();
    assert_eq!(told.area, rect(16, 15, 24, 3));
    assert!(diagnostics_box(&diagnostics, 1, Some((3, 5)), viewport).is_none());
    assert!(diagnostics_box(&diagnostics, 0, None, viewport).is_none());
    assert!(diagnostics_box(&diagnostics, 0, Some((3, 5)), rect(0, 0, 15, 20)).is_none());
    assert!(diagnostics_box(&diagnostics, 0, Some((1, 5)), rect(0, 0, 40, 4)).is_none());
    assert_eq!(
        diagnostic_at(&diagnostics, 0),
        Some(("diagnostic".to_string(), "unused variable".to_string()))
    );
    assert!(diagnostic_at(&diagnostics, 1).is_none());
}

#[test]
fn a_long_message_says_there_is_more() {
    let mut wrong = diagnostic((0, 1), None, vec![]);
    wrong.message = "word ".repeat(100);
    let told = diagnostics_box(&vec![wrong], 0, Some((0, 0)), rect(0, 0, 20, 30)).unwrap();
    assert_eq!(told.lines.len(), 8);
    assert!(told.lines[7].0.ends_with('\u{2026}'));
    assert!(!told.lines[0].1);
}

// The mouse

fn under() -> Under {
    Under {
        mode: Mode::Normal,
        on_sidebar: false,
        resizing_sidebar: false,
        sidebar_focused: false,
        code_hidden: false,
        on_preview: false,
        resizing_preview: false,
        nothing_open: false,
        welcome: None,
        separator: None,
        text: Some((40, 1)),
        text_view: Some(1),
        gutter: None,
        views: vec![(1, rect(0, 2, 80, 20))],
        middle_click_paste: true,
    }
}

const DOWN: MouseEventKind = MouseEventKind::Down(MouseButton::Left);
const DRAG: MouseEventKind = MouseEventKind::Drag(MouseButton::Left);
const UP: MouseEventKind = MouseEventKind::Up(MouseButton::Left);

#[test]
fn clicks_take_a_caret_the_word_and_the_line() {
    let (mut state, mut strip) = (Mouse::new(), Bufferline::new());
    let mut taken = Vec::new();
    for at in [0, 100, 200, 300, 5000] {
        match state.handle_mouse_event(&mut strip, mouse(DOWN, 5, 5), &under(), at).task {
            MouseTask::Click { view: 1, at: 40, action } => taken.push(action),
            other => panic!("{other:?}"),
        }
    }
    assert_eq!(
        taken,
        [
            ClickAction::Caret,
            ClickAction::Take(ClickUnit::Word),
            ClickAction::Take(ClickUnit::Line),
            ClickAction::Caret,
            ClickAction::Caret
        ]
    );
}

#[test]
fn a_drag_on_the_text_stays_there() {
    let (mut state, mut strip) = (Mouse::new(), Bufferline::new());
    state.handle_mouse_event(&mut strip, mouse(DOWN, 5, 5), &under(), 0);
    assert!(state.selecting);
    let sidebar = Under { on_sidebar: true, ..under() };
    let answer = state.handle_mouse_event(&mut strip, mouse(DRAG, 5, 0), &sidebar, 10);
    assert_eq!(answer.task, MouseTask::DragSelection);
    let answer = state.handle_mouse_event(&mut strip, mouse(UP, 5, 0), &sidebar, 20);
    assert_eq!(answer.task, MouseTask::EndSelection);
    assert!(!state.selecting);
    let answer = state.handle_mouse_event(&mut strip, mouse(DRAG, 5, 0), &sidebar, 30);
    assert_eq!(answer.task, MouseTask::Sidebar);
}

#[test]
fn a_move_only_says_where_the_pointer_is() {
    let (mut state, mut strip) = (Mouse::new(), Bufferline::new());
    let answer = state.handle_mouse_event(&mut strip, mouse(MouseEventKind::Moved, 5, 5), &under(), 7);
    assert!(!answer.dismiss && answer.arm_hover);
    assert_eq!(answer.shape, Some(PointerShape::Text));
    assert_eq!(answer.task, MouseTask::Ignored);
    let answer = state.handle_mouse_event(&mut strip, mouse(MouseEventKind::Moved, 5, 6), &under(), 9);
    assert!(!answer.arm_hover);
    assert_eq!((answer.shape, state.moved_at), (None, 9));
    // The status line is no text.
    let answer = state.handle_mouse_event(&mut strip, mouse(MouseEventKind::Moved, 21, 6), &under(), 9);
    assert_eq!(answer.shape, Some(PointerShape::Default));
}

#[test]
fn the_panels_and_the_separators_come_before_the_text() {
    let (mut state, mut strip) = (Mouse::new(), Bufferline::new());
    let preview = Under { on_preview: true, sidebar_focused: true, ..under() };
    let answer = state.handle_mouse_event(&mut strip, mouse(DOWN, 5, 5), &preview, 0);
    assert_eq!((answer.task, answer.focus_code), (MouseTask::Preview, true));
    let welcome = Under { nothing_open: true, welcome: Some(2), ..under() };
    let answer = state.handle_mouse_event(&mut strip, mouse(DOWN, 5, 5), &welcome, 0);
    assert_eq!(answer.task, MouseTask::RunWelcome(2));
    let split = Under { separator: Some(4), ..under() };
    state.handle_mouse_event(&mut strip, mouse(DOWN, 5, 5), &split, 0);
    let answer = state.handle_mouse_event(&mut strip, mouse(DRAG, 5, 9), &under(), 0);
    assert_eq!(answer.task, MouseTask::DragSeparator(4));
    state.separator_lost();
    assert_eq!(state.dragged_separator, None);
    let held = MouseEvent { modifiers: KeyModifiers { control: true, ..NONE }, ..mouse(DOWN, 5, 5) };
    let answer = state.handle_mouse_event(&mut strip, held, &under(), 0);
    assert_eq!(answer.task, MouseTask::GotoDefinition { view: 1, at: 40 });
    let right = mouse(MouseEventKind::Down(MouseButton::Right), 5, 5);
    let answer = state.handle_mouse_event(&mut strip, right, &under(), 0);
    assert_eq!((answer.task, answer.focus_code), (MouseTask::TextMenu { view: 1, at: 40 }, true));
    let blank = Under { text: None, ..under() };
    let answer = state.handle_mouse_event(&mut strip, right, &blank, 0);
    assert_eq!(answer.task, MouseTask::ViewMenu(1));
    let middle = mouse(MouseEventKind::Up(MouseButton::Middle), 5, 5);
    let answer = state.handle_mouse_event(&mut strip, middle, &under(), 0);
    assert_eq!(answer.task, MouseTask::PasteAt { view: 1, at: 40 });
    let answer = state.handle_mouse_event(&mut strip, mouse(MouseEventKind::ScrollUp, 5, 5), &under(), 0);
    assert_eq!(answer.task, MouseTask::Scroll { view: 1, down: false });
    let gutter = Under { text: None, gutter: Some(1), ..under() };
    let answer = state.handle_mouse_event(&mut strip, mouse(DOWN, 5, 1), &gutter, 0);
    assert_eq!(answer.task, MouseTask::ToggleBreakpoint(1));
}

#[test]
fn the_strip_takes_its_clicks_and_its_wheel() {
    let tabs = list_tabs(&files(&["a.rs", "b.rs", "c.rs"]), 2, false);
    let mut strip = Bufferline::new();
    strip.lay_out(&tabs, rect(0, 0, 26, 2), 2);
    let mut state = Mouse::new();
    let answer = state.handle_mouse_event(&mut strip, mouse(DOWN, 0, 0), &under(), 0);
    assert_eq!((answer.task, strip.first), (MouseTask::Nothing, 0));
    let answer = state.handle_mouse_event(&mut strip, mouse(MouseEventKind::ScrollDown, 0, 5), &under(), 0);
    assert_eq!(answer.task, MouseTask::NextBuffer);
    let answer = state.handle_mouse_event(&mut strip, mouse(DOWN, 0, 4), &under(), 0);
    assert_eq!(answer.task, MouseTask::OpenTab(1));
    let close = strip.tabs[0].close;
    let answer = state.handle_mouse_event(&mut strip, mouse(DOWN, 0, close), &under(), 0);
    assert_eq!(answer.task, MouseTask::CloseTab(1));
    let right = mouse(MouseEventKind::Down(MouseButton::Right), 0, 4);
    let answer = state.handle_mouse_event(&mut strip, right, &under(), 0);
    assert_eq!(answer.task, MouseTask::TabMenu(1));
}

#[test]
fn a_drag_counts_as_the_nearest_cell() {
    let inner = rect(4, 2, 10, 5);
    assert_eq!(drag_cell(inner, 0, 0), Some((2, 4)));
    assert_eq!(drag_cell(inner, 30, 30), Some((6, 13)));
    assert_eq!(drag_cell(rect(4, 2, 0, 5), 3, 3), None);
    assert_eq!(drag_beyond(inner, 1, 3, 9), Some(2));
    assert_eq!(drag_beyond(inner, 1, 0, 9), None);
    assert_eq!(drag_beyond(inner, 7, 3, 9), Some(4));
    assert_eq!(drag_beyond(inner, 7, 8, 9), None);
    assert_eq!(drag_place(25, 20, 30, 33), 33);
    assert_eq!(drag_place(22, 20, 30, 33), 32);
    assert_eq!(line_range(&vec![0, 5, 9], 1), Range { anchor: 5, head: 9 });
}

#[test]
fn a_drag_grows_by_the_unit_clicked() {
    let mut state = Mouse::new();
    let word = |anchor, head| Range { anchor, head };
    assert_eq!(state.drag_selection(word(0, 0), true, 3, 3, word(3, 4)), (word(3, 3), false));
    assert_eq!(state.drag_selection(word(0, 0), false, 3, 3, word(3, 4)), (word(3, 4), true));
    state.took(ClickUnit::Word, word(10, 14));
    assert_eq!(state.drag_selection(word(20, 24), false, 0, 0, word(0, 0)).0, word(10, 24));
    assert_eq!(state.drag_selection(word(2, 5), false, 0, 0, word(0, 0)).0, word(14, 2));
    assert!(is_jump(0, 10) && is_jump(10, 0) && !is_jump(0, 9));
    assert!(points_at_selection(&vec![word(8, 4)], 4));
    assert!(!points_at_selection(&vec![word(8, 4)], 8));
    assert!(mouse_selection_done(true, Some(word(1, 1)), word(1, 2), 1));
    assert!(!mouse_selection_done(true, Some(word(1, 2)), word(1, 2), 9));
    assert!(!mouse_selection_done(true, None, word(1, 2), 1));
    assert!(!mouse_selection_done(false, None, word(1, 9), 8));
}

#[test]
fn the_pointer_has_to_rest() {
    let (mut state, mut strip) = (Mouse::new(), Bufferline::new());
    state.handle_mouse_event(&mut strip, mouse(MouseEventKind::Moved, 5, 6), &under(), 1000);
    assert_eq!(state.hover_rest(1100), 300);
    assert_eq!(state.hover_landed(1100), HoverStep::Wait);
    assert!(state.hover_armed);
    assert_eq!(state.hover_landed(1400), HoverStep::Look(5, 6));
    assert!(!state.hover_armed);
    assert_eq!(state.hover_look(false, false, Some((1, 40))), HoverLook::Ask(1, 40));
    assert_eq!(state.hover_look(false, false, None), HoverLook::Close);
    assert!(!state.hover_asks(1, 40, false, 0));
    assert!(state.hover_asks(1, 40, true, 0));
    assert_eq!(state.hover_look(true, false, Some((1, 40))), HoverLook::Leave);
    assert_eq!(state.hover_look(true, true, None), HoverLook::Leave);
    assert!(state.hover_answered(1, 40, 2));
    assert!(!state.hover_answered(1, 41, 2));
    assert!(!state.hover_answered(1, 40, 0));
    assert_eq!(state.hover_shown, None);
}

// Keys

#[test]
fn a_capital_is_one_however_it_is_reported() {
    let shift = KeyModifiers { shift: true, ..NONE };
    let mut key = KeyEvent { code: KeyCode::Char('e'), modifiers: shift };
    canonicalize_key(&mut key);
    assert_eq!(key, press('E'));
    let mut sharp = KeyEvent { code: KeyCode::Char('\u{df}'), modifiers: shift };
    canonicalize_key(&mut sharp);
    assert_eq!(sharp, press('\u{df}'));
    let mut tab = KeyEvent { code: KeyCode::Tab, modifiers: shift };
    canonicalize_key(&mut tab);
    assert_eq!(tab, KeyEvent { code: KeyCode::Tab, modifiers: shift });
}

#[test]
fn digits_make_a_count() {
    assert_eq!(command_mode(press('3'), None, false, false), CountStep::Count(3));
    assert_eq!(command_mode(press('3'), None, true, false), CountStep::Command);
    assert_eq!(command_mode(press('0'), None, false, false), CountStep::Command);
    assert_eq!(command_mode(press('0'), Some(3), true, true), CountStep::Count(30));
    assert_eq!(command_mode(press('0'), Some(10_000_000), false, false), CountStep::Count(100_000_000));
    assert_eq!(command_mode(press('1'), Some(10_000_000), false, false), CountStep::TooLarge);
    assert_eq!(command_mode(press('.'), Some(4), false, false), CountStep::Repeat(4));
    assert_eq!(command_mode(press('.'), None, false, false), CountStep::Repeat(1));
    assert_eq!(command_mode(press('.'), None, false, true), CountStep::Command);
    assert_eq!(count_after(Some(3), true), Some(3));
    assert_eq!(count_after(Some(3), false), None);
}

#[test]
fn what_was_inserted_is_done_again() {
    let mut replay = Replay { last: None, requested: None };
    assert_eq!(replay.step(&InsertEvent::Key(press('a')), 0), ReplayStep::Key(press('a')));
    assert_eq!(replay.step(&InsertEvent::RequestCompletion, 7), ReplayStep::Save);
    let apply = InsertEvent::CompletionApply { trigger_offset: 3, changes: vec![] };
    assert_eq!(replay.step(&apply, 0), ReplayStep::Apply(None));
    assert_eq!(replay.step(&InsertEvent::TriggerCompletion, 0), ReplayStep::Nothing);
    assert_eq!(replay.step(&apply, 0), ReplayStep::Apply(Some(7)));
    assert_eq!(replay.requested, None);
    assert_eq!(shift_changes(&vec![(3, 5, None), (0, 1, None)], 10, 5), [(8, 10), (5, 6)]);
    assert_eq!(shift_changes(&vec![(0, 1, None)], 2, 5), [(0, 0)]);
}

#[test]
fn keys_find_who_takes_them() {
    let facts = KeyFacts {
        mode: Mode::Insert,
        default_mode: Mode::Insert,
        waits: None,
        full_preview: true,
        sidebar_focused: true,
        nothing_open: true,
        shortcut: false,
        preview_passed: false,
        sidebar_passed: false,
    };
    assert_eq!(route(facts), KeyRoute::Preview);
    let facts = KeyFacts { preview_passed: true, ..facts };
    assert_eq!(route(facts), KeyRoute::Sidebar);
    assert_eq!(route(KeyFacts { sidebar_passed: true, ..facts }), KeyRoute::Insert);
    let facts = KeyFacts { full_preview: false, sidebar_focused: false, ..facts };
    assert_eq!(route(facts), KeyRoute::Swallow);
    assert_eq!(route(KeyFacts { shortcut: true, ..facts }), KeyRoute::Insert);
    let waits = Some(OnKeyCallbackKind::PseudoPending);
    assert_eq!(route(KeyFacts { waits, ..facts }), KeyRoute::NextKey);
    assert_eq!(route(KeyFacts { mode: Mode::Normal, ..facts }), KeyRoute::Command);
    let mut view = EditorView::new();
    view.key_read(press('g'), waits);
    view.key_read(press('h'), waits);
    assert_eq!(view.pseudo_pending, [press('g'), press('h')]);
    assert!(!view.on_next_key(OnKeyCallbackKind::Fallback));
    assert!(view.on_next_key(OnKeyCallbackKind::PseudoPending));
    assert!(!view.on_next_key(OnKeyCallbackKind::PseudoPending));
    view.key_read(press('h'), None);
    assert!(view.pseudo_pending.is_empty());
    view.key_read(press('g'), waits);
    assert!(view.handle_non_key_input());
    assert!(!view.handle_non_key_input() && view.pseudo_pending.is_empty());
    assert_eq!(
        cancelled(&vec![(press('j'), Some('j')), (press('k'), None)]),
        [CancelStep::Char('j'), CancelStep::Look(press('k'))]
    );
    assert!(stores_history(Mode::Normal) && !stores_history(Mode::Insert));
    assert!(after_command(Mode::Normal, Mode::Insert).records);
    assert!(!after_command(Mode::Insert, Mode::Insert).switched);
    let ctrl = KeyEvent { code: KeyCode::Char('u'), modifiers: KeyModifiers { control: true, ..NONE } };
    assert!(matches!(unbound(ctrl, None), InsertStep::NotBound(said) if said == "C-u is not bound"));
    assert!(matches!(unbound(press('x'), Some('x')), InsertStep::Char('x')));
}

#[test]
fn a_menu_of_completions_takes_keys_and_closes() {
    let step = completion_step(MenuAnswer::Ignored, MenuAnswer::Closes);
    assert!(!step.consumed && step.closes && step.waits_now);
    let step = completion_step(MenuAnswer::Closes, MenuAnswer::Ignored);
    assert!(step.consumed && step.closes && !step.waits_now);
    let mut view = EditorView::new();
    assert!(!view.set_completion(0) && !view.completion);
    assert!(view.set_completion(2) && view.completion);
    let applied = CompleteAction::Applied { trigger_offset: 1, changes: vec![], placeholder: true };
    assert_eq!(view.clear_completion(Some(applied)), ClearStep::Recorded { placeholder: true });
    assert_eq!(view.last_insert.len(), 2);
    assert!(!view.completion);
    let selected = CompleteAction::Selected { savepoint: 9 };
    assert_eq!(view.clear_completion(Some(selected)), ClearStep::Restore(9));
    assert_eq!(view.clear_completion(None), ClearStep::Nothing);
    view.inserted(press('x'));
    assert_eq!(view.last_insert.len(), 3);
    view.entered_insert();
    assert!(view.last_insert.is_empty());
}

#[test]
fn the_terminal_draws_the_cursor_it_blinks() {
    let mut view = EditorView::new();
    let shown = |view: &EditorView, kind, blink| view.cursor(kind, blink, false, false, false);
    assert_eq!(shown(&view, CursorKind::Block, true), CursorKind::Block);
    assert_eq!(shown(&view, CursorKind::Block, false), CursorKind::Hidden);
    assert!(view.terminal_focus(false, true));
    assert_eq!(shown(&view, CursorKind::Block, true), CursorKind::Underline);
    assert_eq!(shown(&view, CursorKind::Bar, false), CursorKind::Bar);
    assert_eq!(view.cursor(CursorKind::Bar, false, false, true, false), CursorKind::Hidden);
    assert!(!view.terminal_focus(true, true));
    assert!(workspace_trust_indicator_visible(false, true));
    assert!(!workspace_trust_indicator_visible(true, true));
}

#[test]
fn the_view_draws_its_tabs_and_reads_its_mouse() {
    let mut view = EditorView::new();
    let tabs = view.render_bufferline(&files(&["a.rs", "b.rs"]), 0, false, rect(0, 0, 60, 1), 1);
    assert_eq!(tabs.len(), 2);
    assert_eq!(view.bufferline_hit(0, 3), Some(BufferlineHit::Open(0)));
    let answer = view.handle_mouse_event(mouse(DOWN, 0, 15), &under(), 0);
    assert_eq!(answer.task, MouseTask::OpenTab(1));
    view.clear_bufferline();
    assert_eq!(view.bufferline_hit(0, 3), None);
}

// The layout

fn screen() -> Screen {
    Screen {
        area: rect(0, 0, 100, 30),
        bufferline: BufferLine::Multiple,
        documents: 2,
        bufferline_height: 2,
        sidebar_open: true,
        sidebar_width: 30,
        editor_room: 20,
        code_hidden: false,
        full_preview: false,
        nothing_open: false,
    }
}

#[test]
fn panels_stand_side_by_side() {
    let layout = screen().lay_out(25);
    assert_eq!(layout.sidebar, Some(rect(0, 0, 30, 29)));
    assert_eq!(layout.views, rect(30, 2, 45, 27));
    assert_eq!(layout.strip, Some(rect(30, 0, 45, 2)));
    assert_eq!(layout.preview, Some(rect(75, 0, 25, 29)));
    assert_eq!(layout.shown, Shown::Views);
    let hidden = Screen { code_hidden: true, ..screen() }.lay_out(25);
    assert_eq!(hidden.sidebar, Some(rect(0, 0, 100, 29)));
    assert_eq!((hidden.shown, hidden.strip, hidden.preview), (Shown::Hidden, None, None));
    let welcome = Screen { nothing_open: true, ..screen() }.lay_out(0);
    assert_eq!((welcome.shown, welcome.strip), (Shown::Welcome, None));
    let full = Screen { full_preview: true, ..screen() }.lay_out(25);
    assert_eq!((full.shown, full.views.width), (Shown::FullPreview, 70));
    let one = Screen { documents: 1, ..screen() };
    assert_eq!(one.lay_out(0).strip, None);
    assert_eq!(one.room(), rect(30, 0, 70, 29));
}

#[test]
fn a_view_is_drawn_with_what_it_has() {
    let facts = ViewFacts {
        area: rect(0, 2, 40, 20),
        viewport: rect(0, 2, 80, 20),
        focused: true,
        terminal_focused: true,
        cursor_blink: false,
        cursorline: true,
        cursorcolumn: false,
        gutter: 4,
        review: false,
        inline_diagnostics: false,
        end_of_line_diagnostics: false,
        settled: true,
        language_rainbow: None,
        rainbow: false,
        server_marks: true,
        frame: Some(8),
    };
    let drawn = lay_out_view(facts);
    assert!(drawn.cursorline && !drawn.cursorcolumn && drawn.gutter && drawn.own_cursor);
    assert_eq!(drawn.border, Some(40));
    assert!(drawn.box_shown);
    assert_eq!(drawn.statusline.height, 0);
    // The debugger counts lines from one.
    assert_eq!(drawn.frame_line, Some(7));
    assert_eq!(lay_out_view(ViewFacts { frame: Some(0), ..facts }).frame_line, Some(0));
    assert_eq!(lay_out_view(ViewFacts { frame: None, ..facts }).frame_line, None);
    let theme = styles(&[("ui.highlight.frameline", on(Color::Red))]);
    let mark = |line| mark_frame_line(drawn.frame_line, rect(4, 2, 36, 19), line, 9, &theme);
    assert_eq!(mark(7), Some((rect(4, 9, 36, 1), on(Color::Red))));
    assert_eq!(mark(8), None);
    let last = lay_out_view(ViewFacts { viewport: facts.area, review: true, ..facts });
    assert_eq!((last.border, last.gutter), (None, false));
    // What the caret is about is over all else, and only where the keys go.
    assert_eq!(
        view_layers(facts),
        [
            Layer::Syntax,
            Layer::Links,
            Layer::Diagnostics,
            Layer::ServerMarks,
            Layer::Tabstops,
            Layer::Selections,
            Layer::Bracket,
        ]
    );
    let aside = ViewFacts { focused: false, review: true, language_rainbow: Some(true), ..facts };
    assert_eq!(
        view_layers(aside),
        [Layer::Review, Layer::Syntax, Layer::Rainbow, Layer::Links, Layer::Diagnostics]
    );
    let plain = ViewFacts { rainbow: true, language_rainbow: Some(false), ..aside };
    assert!(!view_layers(plain).contains(&Layer::Rainbow));
}

#[test]
fn the_last_row_shows_what_is_pending() {
    assert_eq!(pending_text(Some(12), &vec!["g".into()]), "12g");
    assert_eq!(pending_text(None, &vec!["<C-w>".into(); 4]), "<C-w><C-w><C-w>");
    // Cut inside a character, it stays whole.
    let odd = format!("\u{e9}{}", "a".repeat(14));
    assert_eq!(pending_text(None, &vec![odd.clone()]), odd);
    let row = last_row(rect(0, 0, 80, 30), 10, true, true).unwrap();
    assert_eq!((row.keys, row.restricted, row.recording), (59, Some(74), Some(77)));
    assert!(last_row(rect(0, 0, 80, 30), 65, false, false).is_none());
}

#[test]
fn the_last_row_is_drawn_in_its_styles() {
    let text = Style { fg: Some(Color::White), ..Style::plain() };
    let theme = styles(&[("ui.text", text), ("error", on(Color::Red))]);
    let area = rect(0, 0, 80, 30);
    let sign = Style { fg: Some(Color::Yellow), ..text }.bold();
    let row = |message, recording| draw_last_row(area, message, "2g", true, recording, &theme);
    let drawn = row(Some(("no such file", Severity::Error)), Some('q'));
    let seen: Vec<_> =
        drawn.iter().map(|text| (text.x, text.y, text.text.as_str(), text.style)).collect();
    assert_eq!(
        seen,
        [
            (0, 29, "no such file", on(Color::Red)),
            (59, 29, "2g", text),
            (74, 29, "[\u{26a0}]", sign),
            (77, 29, "[q]", sign),
        ]
    );
    assert_eq!(row(Some(("saved", Severity::Info)), None)[0].style, text);
    assert_eq!(row(Some(("saved", Severity::Warning)), None)[0].style, text);
    // A message that leaves no room for the signs stands alone.
    let long = "x".repeat(65);
    assert_eq!(row(Some((long.as_str(), Severity::Info)), None).len(), 1);
    assert_eq!(row(None, None).len(), 2);
}

#[test]
fn going_to_a_file_closes_the_preview() {
    assert!(closes_preview(MouseTask::OpenTab(3)));
    assert!(closes_preview(MouseTask::ClosePreview));
    assert!(!closes_preview(MouseTask::CloseTab(3)));
    assert!(!closes_preview(MouseTask::Nothing));
}

// Menus

const PANELS: Panels = Panels {
    commits: false,
    code_hidden: false,
    files: true,
    full_context: false,
    side_by_side: true,
    review: false,
};

#[test]
fn menus_offer_what_can_be_done() {
    let labels = |panels| {
        open_review_menu(panels).iter().map(|entry| entry.label).collect::<Vec<_>>()
    };
    assert_eq!(
        labels(PANELS),
        ["Show commits panel", "Hide code panel", "Hide commit files panel", "Keyboard shortcuts"]
    );
    assert_eq!(
        labels(Panels { review: true, ..PANELS })[3..5],
        ["Show full file context", "Show one side above the other"]
    );
    let tab = open_tab_menu(PANELS);
    assert_eq!((tab[2].label, tab[2].keys), ("Close", "Ctrl+w"));
    assert_eq!(tab.len(), 9);
    let text = open_editor_menu(PANELS, 2);
    assert_eq!(text[0].label, "Cut");
    assert_eq!(text.last().unwrap().command, MenuCommand::WClose);
    let review = open_editor_menu(Panels { review: true, ..PANELS }, 1);
    assert_eq!(review[0].label, "Copy");
    assert_ne!(review.last().unwrap().command, MenuCommand::WClose);
}

#[test]
fn a_tab_is_saved_asked_about_or_closed() {
    assert!(matches!(close_bufferline_tab(true, true, true, "a"), CloseStep::Save));
    assert!(matches!(
        close_bufferline_tab(true, true, false, "scratch"),
        CloseStep::Ask(said) if said == "scratch has changes and no file to write them to."
    ));
    assert!(matches!(close_bufferline_tab(true, false, false, "a"), CloseStep::Close));
    assert!(matches!(close_bufferline_tab(false, true, true, "a"), CloseStep::Close));
    assert_eq!(CloseFailure::Save("full".into()).says(), "Could not save: full");
    assert_eq!(CloseFailure::Flush("x".into()).says(), "Could not close the buffer: x");
    assert_eq!(
        CloseFailure::Modified("a.rs".into()).says(),
        "a.rs has unsaved changes: write it, or :buffer-close! to drop them"
    );
    assert_eq!(CloseFailure::Missing.says(), "That buffer no longer exists");
    assert_eq!(CloseFailure::Other("y".into()).says(), "Could not close the buffer: y");
}

#[test]
fn pending_keys_are_shown_with_the_one_that_waits_for_more() {
    let mut view = EditorView::new();
    view.looks_up(&vec![press('g'), press('h')]);
    view.key_read(press('r'), Some(OnKeyCallbackKind::PseudoPending));
    assert_eq!(view.pseudo_pending, vec![press('g'), press('h'), press('r')]);
    view.looks_up(&vec![press('g')]);
    view.key_read(press('r'), None);
    assert!(view.pseudo_pending.is_empty());
}

#[test]
fn a_register_waits_for_its_command() {
    let mut selected = Some('a');
    let given = take_register(&mut selected);
    assert_eq!((given, selected), (Some('a'), None));
    // Keys are pending: it is put back.
    assert_eq!(register_after(selected, given, true), Some('a'));
    // The command has run, and may have selected another.
    assert_eq!(register_after(selected, given, false), None);
    assert_eq!(register_after(Some('b'), given, false), Some('b'));
}
