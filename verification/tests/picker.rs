//! The picker.

use sid_term::graphics::{Color, Modifiers, Rect, Span, Style};
use sid_term::input::{KeyCode, KeyEvent, KeyModifiers, MouseButton, MouseEvent, MouseEventKind};
use sid_term::picker::cells::{cell_width, draw_cell, mark_cell};
use sid_term::picker::events::{enter, escape_completion, EnterTask, PickerTask};
use sid_term::picker::layout::{
    count_text, hint_text, picker_styles, suffix_width, PickerCursor,
};
use sid_term::picker::list::{Direction, Focus, Picker};
use sid_term::picker::panel::{
    matcher_columns, panel_input, pattern_changes, still_open, whole_words, Column, PanelField,
    PanelInput, PanelToggle,
};
use sid_term::picker::preview::{
    marks_line, preview_anchor, preview_body, preview_of, preview_room, preview_source,
    CachedPreview, Looked, PreviewBody, PreviewSource,
};
use sid_term::theme::ThemeStyles;

const NONE: KeyModifiers = KeyModifiers { shift: false, control: false, alt: false, meta: false };

fn press(code: KeyCode) -> KeyEvent {
    KeyEvent { code, modifiers: NONE }
}

fn alt(c: char) -> KeyEvent {
    KeyEvent { code: KeyCode::Char(c), modifiers: KeyModifiers { alt: true, ..NONE } }
}

fn ctrl(c: char) -> KeyEvent {
    KeyEvent { code: KeyCode::Char(c), modifiers: KeyModifiers { control: true, ..NONE } }
}

fn click(row: u16, column: u16) -> MouseEvent {
    MouseEvent { kind: MouseEventKind::Down(MouseButton::Left), row, column, modifiers: NONE }
}

fn plain(text: &str) -> Span {
    Span::styled(text.to_string(), Style::plain())
}

fn picker() -> Picker {
    Picker::new(vec![Column::new("path")], 0)
}

fn panel() -> Picker {
    picker()
        .with_toggles(vec![
            PanelToggle::new("case", "Aa", 'c', false),
            PanelToggle::new("more", "...", 'm', false).warning_when_off("filtered"),
        ])
        .with_fields(vec![
            PanelField::new("replace", "Replace", "").with_button("All"),
            PanelField::new("include", "Only in", "").shown_by("more").with_value("src".into()),
        ])
        .with_panel_action()
}

#[test]
fn moving_goes_round_the_ends() {
    let mut picker = picker();
    picker.move_by(1, Direction::Backward, 5);
    assert_eq!(picker.cursor, 4);
    picker.move_by(2, Direction::Forward, 5);
    assert_eq!(picker.cursor, 1);
    picker.to_end(5);
    assert_eq!(picker.cursor, 4);
    picker.to_start();
    assert_eq!(picker.cursor, 0);
    // Nowhere to go.
    picker.move_by(1, Direction::Forward, 0);
    assert_eq!(picker.cursor, 0);
    picker.to_end(0);
    assert_eq!(picker.cursor, 0);
}

#[test]
fn a_page_is_what_the_list_shows() {
    let mut picker = picker();
    picker.required_size(80, 14);
    assert_eq!(picker.completion_height, 10);
    picker.page_down(100);
    assert_eq!(picker.cursor, 10);
    picker.page_up(100);
    assert_eq!(picker.cursor, 0);
}

#[test]
fn the_focus_ring_walks_what_is_on_screen() {
    let mut picker = panel();
    let walked: Vec<Focus> = (0..4)
        .map(|_| {
            picker.handle_key(press(KeyCode::Tab), 3);
            picker.focus
        })
        .collect();
    assert_eq!(walked, [Focus::Field(0), Focus::Toggle(0), Focus::Toggle(1), Focus::Query]);
    // The switch shows the other box, without running the search again.
    assert_eq!(picker.handle_key(alt('m'), 3), PickerTask::Nothing);
    picker.focus_by(Direction::Forward);
    picker.focus_by(Direction::Forward);
    assert_eq!(picker.focus, Focus::Field(1));
    // Hidden again, it cannot hold the focus.
    picker.handle_key(alt('m'), 3);
    assert_eq!(picker.focus, Focus::Query);
}

#[test]
fn tab_walks_the_rows_of_a_picker_without_a_panel() {
    let mut picker = picker();
    picker.handle_key(press(KeyCode::Tab), 3);
    assert_eq!(picker.cursor, 1);
    picker.handle_key(ctrl('p'), 3);
    assert_eq!(picker.cursor, 0);
}

#[test]
fn keys_do_what_they_say() {
    let mut picker = panel();
    assert_eq!(picker.handle_key(alt('c'), 3), PickerTask::Refresh);
    assert!(picker.panel_toggles[0].on);
    assert_eq!(picker.handle_key(press(KeyCode::Enter), 3), PickerTask::Enter);
    assert_eq!(picker.handle_key(press(KeyCode::Esc), 3), PickerTask::Close);
    assert_eq!(picker.handle_key(ctrl('s'), 3), PickerTask::SplitBelow);
    assert_eq!(picker.handle_key(ctrl('v'), 3), PickerTask::SplitBeside);
    assert_eq!(picker.handle_key(alt('a'), 3), PickerTask::RunAction);
    assert_eq!(picker.handle_key(ctrl('f'), 3), PickerTask::EditQuery);
    let mut widening = panel().with_widen(true);
    assert_eq!(widening.handle_key(ctrl('f'), 3), PickerTask::Widen);
    picker.focus = Focus::Field(0);
    assert_eq!(picker.handle_key(press(KeyCode::Enter), 3), PickerTask::RunAction);
    assert_eq!(picker.handle_key(press(KeyCode::Char('x')), 3), PickerTask::EditField(0));
    picker.focus = Focus::Toggle(0);
    assert_eq!(picker.handle_key(press(KeyCode::Char(' ')), 3), PickerTask::Refresh);
    assert_eq!(picker.handle_key(press(KeyCode::Char('x')), 3), PickerTask::EditQuery);
    assert_eq!(picker.focus, Focus::Query);
    let shown = picker.show_preview;
    picker.handle_key(ctrl('t'), 3);
    assert_eq!(picker.show_preview, !shown);
}

#[test]
fn a_large_picker_is_not_kept() {
    let mut picker = picker();
    let version = picker.version;
    assert!(!picker.close(1_000_001));
    assert_eq!(picker.version, version);
    assert!(picker.close(1_000_000));
    assert_ne!(picker.version, version);
    assert!(still_open(version, picker.version).is_err());
    assert!(still_open(picker.version, picker.version).is_ok());
}

#[test]
fn the_list_is_laid_out_under_its_lines() {
    let mut picker = panel().with_title("Search".into()).with_hint(vec!["Alt-a: all", "Tab: next"]);
    let area = Rect { x: 0, y: 0, width: 60, height: 20 };
    let layout = picker.lay_out(area, 30, 40, false, true);
    assert_eq!(layout.title.as_deref(), Some(" Search "));
    assert_eq!(layout.hint, " Alt-a: all  Tab: next ");
    // The box the second switch hides holds text, and that is said.
    assert_eq!(layout.suffix, ["filtered", " Aa ", " ... ", "(running) 30/40"]);
    assert_eq!(layout.suffix_columns.len(), 4);
    assert_eq!(picker.toggle_areas.len(), 2);
    assert_eq!(picker.toggle_areas[0].width, 4);
    assert_eq!(picker.field_areas.len(), 1);
    assert!(picker.button_area.is_some());
    assert_eq!(layout.separator, 3);
    assert_eq!(layout.table, Rect { x: 1, y: 4, width: 58, height: 15 });
    assert_eq!((layout.selected, layout.end), (0, 15));
    // The row in focus is on the page that is drawn.
    picker.cursor = 17;
    let layout = picker.lay_out(area, 30, 40, false, false);
    assert_eq!(picker.rows_offset, 15);
    assert_eq!((layout.selected, layout.end), (2, 30));
    // Matches that are gone take the focus with them.
    let layout = picker.lay_out(area, 3, 40, true, false);
    assert_eq!(picker.cursor, 2);
    assert_eq!(layout.end, 3);
}

#[test]
fn a_click_finds_what_was_drawn_there() {
    let mut picker = panel();
    let area = Rect { x: 0, y: 0, width: 60, height: 20 };
    picker.lay_out(area, 30, 40, false, false);
    let toggle = picker.toggle_areas[0];
    assert_eq!(picker.handle_mouse(click(toggle.y, toggle.x), 30, 3, 0), (true, PickerTask::Refresh));
    let button = picker.button_area.unwrap();
    assert_eq!(picker.handle_mouse(click(button.y, button.x), 30, 3, 0), (true, PickerTask::RunAction));
    let field = picker.field_areas[0].1;
    picker.handle_mouse(click(field.y, field.x), 30, 3, 0);
    assert_eq!(picker.focus, Focus::Field(0));
    picker.handle_mouse(click(picker.query_area.y, picker.query_area.x), 30, 3, 0);
    assert_eq!(picker.focus, Focus::Query);
    // A click marks the row, a second one soon after opens it.
    let row = picker.rows_area.y + 4;
    assert_eq!(picker.handle_mouse(click(row, 5), 30, 3, 1000), (true, PickerTask::Nothing));
    assert_eq!(picker.cursor, 4);
    assert_eq!(picker.handle_mouse(click(row, 5), 30, 3, 1499), (true, PickerTask::Accept));
    assert_eq!(picker.handle_mouse(click(row, 5), 30, 3, 3000), (true, PickerTask::Nothing));
    assert_eq!(picker.handle_mouse(click(row, 5), 30, 3, 3500), (true, PickerTask::Nothing));
    let moved = MouseEvent { kind: MouseEventKind::Moved, ..click(row, 5) };
    assert_eq!(picker.handle_mouse(moved, 30, 3, 0), (false, PickerTask::Nothing));
}

#[test]
fn the_wheel_walks_the_list_or_scrolls_the_preview() {
    let mut picker = picker().with_preview();
    let area = Rect { x: 0, y: 0, width: 100, height: 20 };
    let (list, preview) = picker.split(area);
    assert_eq!(list.width, 50);
    assert_eq!(preview, Some(Rect { x: 50, y: 0, width: 50, height: 20 }));
    picker.lay_out(list, 30, 30, false, false);
    let down = MouseEvent { kind: MouseEventKind::ScrollDown, ..click(5, 5) };
    picker.handle_mouse(down, 30, 3, 0);
    assert_eq!(picker.cursor, 3);
    let over = MouseEvent { column: 60, ..down };
    picker.handle_mouse(over, 30, 3, 0);
    assert_eq!(picker.cursor, 3);
    assert_eq!(picker.scroll_to(10, 100), Some(13));
    assert_eq!(picker.scroll_to(99, 100), Some(99));
    // Another row starts where its own match is.
    picker.to_start();
    assert_eq!(picker.scroll_to(10, 100), None);
    assert_eq!(picker.split(Rect { width: 72, ..area }).1, None);
}

#[test]
fn the_cursor_is_on_what_has_the_focus() {
    let mut picker = panel();
    let area = Rect { x: 0, y: 0, width: 60, height: 20 };
    picker.lay_out(area, 3, 3, false, false);
    assert_eq!(picker.cursor(area), PickerCursor::InQuery(Rect { x: 2, y: 1, width: 60, height: 1 }));
    picker.focus = Focus::Toggle(1);
    let toggle = picker.toggle_areas[1];
    assert_eq!(
        picker.cursor(area),
        PickerCursor::OnSwitch(Some((toggle.y, toggle.x as u32 + 1)))
    );
    picker.focus = Focus::Field(0);
    assert_eq!(picker.cursor(area), PickerCursor::InField(0, picker.field_areas[0].1));
    picker.focus = Focus::Field(1);
    assert_eq!(picker.cursor(area), PickerCursor::Hidden);
}

#[test]
fn what_is_matched_is_marked() {
    let mark = Style::plain().bold();
    let cells = vec![plain("main.rs")];
    let drawn = mark_cell(&cells, &vec![0, 1], mark);
    assert_eq!(drawn.iter().map(|span| span.text.as_str()).collect::<Vec<_>>(), ["ma", "in.rs"]);
    assert_eq!(drawn[0].style, Style::plain().patch(mark));
    // The matcher itself says where.
    let drawn = draw_cell("mr", None, &cells, "main.rs", false, mark);
    let texts: Vec<&str> = drawn.iter().map(|span| span.text.as_str()).collect();
    assert_eq!(texts, ["m", "ain.", "r", "s"]);
    // An idle column marks what a hidden one is searched for.
    let drawn = draw_cell("", Some("rs"), &cells, "main.rs", true, mark);
    assert_eq!(drawn.last().unwrap().text, "rs");
    // What is no pattern marks nothing.
    assert_eq!(draw_cell("", None, &cells, "main.rs", false, mark).len(), 1);
    // A user-perceived character is marked whole.
    let drawn = mark_cell(&vec![plain("e\u{301}x")], &vec![0], mark);
    assert_eq!(drawn[0].text, "e\u{301}");
    assert_eq!(cell_width(&vec![plain("\u{4e2d}a")]), 3);
}

#[test]
fn a_colon_parts_a_path() {
    let mark = Style::plain().bold();
    let marked = |text: &str| {
        let drawn = draw_cell("bc", None, &vec![plain(text)], text, true, mark);
        drawn.iter().map(|span| (span.text.clone(), span.style == mark)).collect::<Vec<_>>()
    };
    let seen = |text: &str, marked: bool| (text.to_string(), marked);
    assert_eq!(marked(":bc-bc"), [seen(":", false), seen("bc", true), seen("-bc", false)]);
    // A comma does not: there the match is no better than the one behind the dash.
    assert_eq!(marked(",bc-bc"), [seen(",bc-", false), seen("bc", true)]);
}

#[test]
fn a_pattern_too_long_to_score_marks_nothing() {
    let mark = Style::plain().bold();
    let longest = "a".repeat(2520);
    let drawn = draw_cell(&longest, None, &vec![plain(&longest)], &longest, false, mark);
    assert_eq!(drawn.len(), 1);
    assert_eq!((drawn[0].text.len(), drawn[0].style), (2520, mark));
    let longer = "a".repeat(2521);
    let drawn = draw_cell(&longer, None, &vec![plain(&longer)], &longer, false, mark);
    assert_eq!(drawn, [plain(&longer)]);
}

#[test]
fn enter_takes_a_completion_or_opens_the_row() {
    assert_eq!(enter(true, Some("50% of".into())), EnterTask::Complete("50\\% of".into()));
    assert_eq!(enter(false, Some("50% of".into())), EnterTask::Accept);
    assert_eq!(enter(true, None), EnterTask::Accept);
    assert_eq!(enter(false, None), EnterTask::Accept);
}

#[test]
fn a_switch_tells_on_from_off() {
    let style = |fg| Style { fg: Some(fg), ..Style::plain() };
    let only = |scopes: &[(&str, Style)]| ThemeStyles {
        scopes: scopes.iter().map(|(name, style)| (name.to_string(), *style)).collect(),
    };
    let text = style(Color::White);
    let theme = only(&[
        ("ui.text", text),
        ("ui.statusline.normal", style(Color::Green)),
        ("ui.statusline", style(Color::Gray)),
        ("warning", style(Color::Yellow)),
        ("special", style(Color::Red)),
        ("ui.picker.header.column.active", style(Color::Blue)),
    ]);
    let styles = picker_styles(&theme);
    let dim = text.add_modifier(Modifiers { dim: true, ..Modifiers::none() });
    assert_eq!((styles.on, styles.off, styles.button), (style(Color::Green), dim, style(Color::Gray)));
    assert_eq!(styles.matched, style(Color::Red).bold());
    assert_eq!(styles.column_name(true), style(Color::Blue));
    assert_eq!(styles.column_name(false), Style::plain());
    // Without a badge's colour a switch that is on is reversed.
    let bare = picker_styles(&only(&[("ui.text", text)]));
    assert_eq!(bare.on, text.add_modifier(Modifiers { reversed: true, ..Modifiers::none() }));
    // A warning, two switches of which one is on, and the count.
    let mut picker = panel();
    picker.flip_toggle(0);
    assert_eq!(picker.suffix_styles(styles), [styles.warning, styles.on, styles.off, styles.text]);
}

#[test]
fn a_row_skips_the_hidden_columns() {
    let mut picker = Picker::new(
        vec![Column::searched_only("id"), Column::new("path"), Column::new("line").without_filtering()],
        1,
    );
    assert_eq!(matcher_columns(&picker.columns), 2);
    let cells = vec![vec![plain("7")], vec![plain("src/main.rs")], vec![plain("12")]];
    let texts = vec!["7".to_string(), "src/main.rs".to_string()];
    let patterns = vec![String::new(), "main".to_string()];
    let row = picker.draw_row(&cells, &texts, &patterns, Style::plain().bold());
    assert!(row[0].is_empty());
    let path: Vec<&str> = row[1].iter().map(|span| span.text.as_str()).collect();
    assert_eq!(path, ["src/", "main", ".rs"]);
    assert_eq!(row[2].len(), 1);
    assert_eq!(picker.widths, [0, 11, 4]);
    assert_eq!(picker.header(0, None), None);
    assert_eq!(picker.header(1, Some("path")), Some(("path", true)));
    assert_eq!(picker.header(2, Some("path")), Some(("line", false)));
    assert_eq!(picker.cut_starts(), [true, true, true]);
}

#[test]
fn words_are_asked_for_whole() {
    assert_eq!(whole_words("one two"), "'one 'two");
    let columns = vec![Column::new("text")];
    let was = vec![("text".to_string(), "fo".to_string())];
    let now = vec![("text".to_string(), "foo".to_string())];
    let changes = pattern_changes(&columns, &was, &now);
    assert_eq!(changes.len(), 1);
    assert_eq!(changes[0].pattern, "foo");
    assert!(changes[0].append);
    assert!(pattern_changes(&columns, &now, &now).is_empty());
}

#[test]
fn a_query_that_changes_starts_at_the_top() {
    let mut picker = Picker::new(vec![Column::new("text")], 0);
    picker.cursor = 5;
    let was = vec![("text".to_string(), "a".to_string())];
    let now = vec![("text".to_string(), "b".to_string())];
    assert!(picker.prompt_changed(&was, &was).is_none());
    assert_eq!(picker.cursor, 5);
    // The order of what was typed makes no other query.
    let entry = |name: &str, text: &str| (name.to_string(), text.to_string());
    let one = vec![entry("text", "a"), entry("path", "src")];
    let other = vec![entry("path", "src"), entry("text", "a")];
    assert!(picker.prompt_changed(&one, &other).is_none());
    assert_eq!(picker.cursor, 5);
    assert_eq!(picker.primary_query(&other), "a");
    assert_eq!(picker.primary_query(&vec![entry("path", "src")]), "");
    assert_eq!(picker.prompt_changed(&was, &now).unwrap().len(), 1);
    assert_eq!(picker.cursor, 0);
    let mut panel = panel();
    panel.cursor = 5;
    assert!(!panel.field_changed(1, "src".into()));
    assert_eq!(panel.cursor, 5);
    assert!(panel.field_changed(1, "tests".into()));
    assert_eq!(panel.cursor, 0);
    assert_eq!(panel.panel_fields[1].line, "tests");
}

#[test]
fn the_inputs_of_a_panel_are_read_by_name() {
    let panel = panel();
    let query = vec![("path".to_string(), "needle".to_string())];
    let input = panel_input(
        &panel.columns,
        panel.primary_column,
        &query,
        &panel.panel_fields,
        &panel.panel_toggles,
    );
    assert_eq!(input.query(), "needle");
    assert_eq!(input.field("include"), "src");
    assert!(!input.toggle("case"));
    assert!(!input.toggle("nothing"));
    assert_eq!(PanelInput::default().query(), "");
}

#[test]
fn texts_of_the_query_line() {
    assert_eq!(count_text(true, 3, 10), "(running) 3/10");
    assert_eq!(count_text(false, 0, 0), "0/0");
    assert_eq!(suffix_width(&vec!["ab".into(), "c".into()]), 5);
    assert_eq!(suffix_width(&vec![]), 0);
    assert_eq!(hint_text(&vec!["one", "two"], 7), " one ");
    assert_eq!(hint_text(&vec!["one", "two"], 10), " one  two ");
    assert_eq!(escape_completion("50% of"), "50\\% of");
    assert_eq!(escape_completion("plain"), "plain");
}

#[test]
fn a_preview_shows_what_is_there() {
    assert!(matches!(preview_of(&Looked::Missing), CachedPreview::NotFound));
    assert!(matches!(preview_of(&Looked::Other), CachedPreview::NotFound));
    let file = |len, binary, lines| Looked::File { len, binary, lines };
    assert!(matches!(preview_of(&file(10_485_761, None, None)), CachedPreview::LargeFile));
    assert!(matches!(preview_of(&file(10_485_760, Some(true), None)), CachedPreview::Binary));
    assert!(matches!(preview_of(&file(1, Some(false), Some(4))), CachedPreview::Document(4)));
    assert!(matches!(preview_of(&file(1, Some(false), None)), CachedPreview::NotFound));
    let CachedPreview::Directory(names) =
        preview_of(&Looked::Directory(vec![("src".into(), true), ("a.rs".into(), false)]))
    else {
        panic!("a directory");
    };
    assert_eq!(names, [("src/".to_string(), true), ("a.rs".to_string(), false)]);

    let room = preview_room(Rect { x: 0, y: 0, width: 44, height: 12 });
    assert_eq!(room, Rect { x: 2, y: 1, width: 40, height: 10 });
    assert_eq!(preview_body(&CachedPreview::Document(4), Some((1, 4)), room), PreviewBody::Document);
    assert_eq!(
        preview_body(&CachedPreview::Document(4), Some((1, 5)), room),
        PreviewBody::Placeholder(10, 6, "<Invalid file location>")
    );
    assert_eq!(preview_body(&CachedPreview::Directory(names), None, room), PreviewBody::Entries(2));
    assert_eq!(
        preview_body(&CachedPreview::Binary, None, room),
        PreviewBody::Placeholder(15, 6, "<Binary file>")
    );
}

#[test]
fn a_preview_starts_where_its_lines_are() {
    assert_eq!(preview_anchor(None, 10, 7, (3, 1)), (0, 0));
    assert_eq!(preview_anchor(Some((2, 4)), 10, 7, (3, 1)), (3, 1));
    assert_eq!(preview_anchor(Some((2, 4)), 10, 2, (3, 1)), (2, 0));
    assert_eq!(preview_anchor(Some((2, 40)), 10, 7, (3, 1)), (7, 0));
    assert!(marks_line(Some((2, 4)), 4));
    assert!(!marks_line(Some((2, 4)), 5));
    assert_eq!(preview_source(false, true, true, false), PreviewSource::Editor);
    assert_eq!(preview_source(false, false, true, true), PreviewSource::Cache { highlight: true });
    assert_eq!(preview_source(false, false, false, false), PreviewSource::Look);
}

#[test]
fn a_picker_is_built_as_asked_for() {
    let column = Column::new("kind").with_keywords(vec!["fn", "struct"]).keeping_start();
    assert_eq!(column.keywords, vec!["fn", "struct"]);
    assert!(!column.truncate_start);
    let mut picker = Picker::new(vec![column], 0).with_initial_cursor(4).with_preview();
    assert_eq!(picker.cursor, 4);
    let shown = picker.show_preview;
    picker.toggle_preview();
    assert_eq!(picker.show_preview, !shown);
    picker.toggle_preview();
    assert_eq!(picker.show_preview, shown);
}

#[test]
fn a_word_with_a_mark_of_its_own_stays_as_typed() {
    assert_eq!(whole_words("fix ^bug foo$"), "'fix ^bug foo$");
    assert_eq!(whole_words("a$b !c 'd \\e $ f"), "'a$b !c 'd \\e $ 'f");
}
