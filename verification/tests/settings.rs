//! The settings screen.

use sid_term::bindings::{by_action, ByAction};
use sid_term::graphics::Rect;
use sid_term::input::{
    KeyCode, KeyEvent, KeyModifiers, MouseButton, MouseEvent, MouseEventKind,
};
use sid_term::keymap::{KeyTrie, KeyTrieNode, MappableCommand, Mode};
use sid_term::settings::{
    also, apply, as_commands, cannot_change, is_setting, mode_after, named, next_value, read,
    settings, shown_value, told, write_setting, Answer, Kind, Setting, Settings, SettingsTask,
};

fn plain(code: KeyCode) -> KeyEvent {
    KeyEvent {
        code,
        modifiers: KeyModifiers { shift: false, control: false, alt: false, meta: false },
    }
}

fn find(key: &str) -> Setting {
    named(key).expect("it is a setting")
}

fn empty() -> Settings {
    Settings::new(ByAction { actions: vec![] })
}

#[test]
fn a_setting_of_a_few_words_is_given_them_or_it_cannot_be_flipped() {
    for (args, doc, _) in as_commands() {
        let setting = named(&args).expect("it names a setting of this screen");
        match setting.kind {
            // `:toggle-option <key>` on a switch, and nothing else.
            Kind::Switch => assert_eq!(args.split_whitespace().count(), 1, "{doc}"),
            // And every word of one that is a few, in the order it walks them.
            Kind::Words(words) => {
                let given: Vec<_> = args.split_whitespace().skip(1).collect();
                let expected: Vec<_> = words.iter().map(|(value, _)| *value).collect();
                assert_eq!(given, expected, "{doc}");
            }
        }
    }
}

#[test]
fn the_word_on_screen_is_not_always_the_word_config_toml_keeps() {
    let setting = find("default-mode");
    // What normal mode is called in the file is modal editing, and that is what it reads as.
    assert_eq!(shown_value(&setting, &Answer::Word("normal".into())), "modal".to_string());
    assert_eq!(shown_value(&setting, &Answer::Word("insert".into())), "insert".to_string());
}

#[test]
fn a_setting_is_written_where_it_belongs() {
    let text = "# mine, and it stays\ntheme = \"github_dark\"\n\n[editor]\nmouse = true\n";
    let text = write_setting(text, "soft-wrap.enable", &Answer::Switch(false)).unwrap();
    let written = write_setting(&text, "line-number", &Answer::Word("relative".to_string())).unwrap();

    assert!(written.contains("# mine, and it stays"));
    assert!(written.contains("theme = \"github_dark\""));
    assert!(written.contains("mouse = true"));
    assert!(written.contains("line-number = \"relative\""));
    assert!(written.contains("[editor.soft-wrap]\nenable = false"));
}

#[test]
fn a_file_that_is_not_there_yet_is_written_whole() {
    let written = write_setting("", "auto-save.focus-lost", &Answer::Switch(true)).unwrap();
    assert_eq!(written, "[editor.auto-save]\nfocus-lost = true\n");
}

#[test]
fn the_cursor_while_typing_is_a_setting_that_reads_back() {
    let mut config: serde_json::Value =
        serde_json::from_str("{\"cursor-shape\": {\"insert\": \"bar\"}}").unwrap();
    apply(&mut config, "cursor-shape.insert", &Answer::Word("block".to_string())).unwrap();
    assert!(matches!(read(&config, "cursor-shape.insert"), Answer::Word(word) if word == "block"));
}

#[test]
fn typing_narrows_the_settings_by_every_word_for_them() {
    let mut screen = empty();
    assert_eq!(screen.shown().len(), settings().len());
    screen.query = "wrap".into();
    let shown = screen.shown();
    assert_eq!(shown.len(), 1);
    assert_eq!(settings()[shown[0]].key, "soft-wrap.enable");
    // By the other words it answers to, and by its key in config.toml.
    screen.query = "wordwrap".into();
    assert_eq!(screen.shown().len(), 1);
    screen.query = "cursor-blink".into();
    assert_eq!(screen.shown().len(), 1);
}

#[test]
fn a_setting_wears_the_keys_that_flip_it() {
    let trie = KeyTrie::Node(KeyTrieNode {
        name: String::new(),
        entries: vec![(
            KeyEvent {
                code: KeyCode::Char('z'),
                modifiers: KeyModifiers { shift: false, control: false, alt: true, meta: false },
            },
            KeyTrie::MappableCommand(MappableCommand::Typable {
                name: "toggle-option".into(),
                args: "soft-wrap.enable".into(),
                doc: String::new(),
            }),
        )],
    });
    let screen = Settings::new(by_action(&trie, &vec![]));
    assert_eq!(screen.keys_of(&find("soft-wrap.enable")), "Alt+z");
    assert_eq!(screen.keys_of(&find("mouse")), "");
}

#[test]
fn a_switch_flips_and_a_word_comes_round() {
    let mouse = find("mouse");
    assert!(matches!(next_value(&mouse, &Answer::Switch(true)), Some(Answer::Switch(false))));
    let mode = find("default-mode");
    let Some(Answer::Word(next)) = next_value(&mode, &Answer::Word("insert".into())) else {
        panic!("the word behind insert");
    };
    assert_eq!(next, "normal");
    let Some(Answer::Word(back)) = next_value(&mode, &Answer::Word(next)) else {
        panic!("the word behind normal");
    };
    assert_eq!(back, "insert");
    assert!(next_value(&mouse, &Answer::Other("{}".into())).is_none());
    assert_eq!(cannot_change(&mouse), "'mouse' is not a setting we can change");
}

#[test]
fn a_setting_that_is_not_there_is_refused() {
    let mut config: serde_json::Value = serde_json::from_str("{\"mouse\": true, \"depth\": 3}").unwrap();
    assert_eq!(
        apply(&mut config, "nothing.here", &Answer::Switch(true)).unwrap_err(),
        "'nothing.here' is not a setting"
    );
    assert!(matches!(read(&config, "mouse"), Answer::Switch(true)));
    apply(&mut config, "mouse", &Answer::Switch(false)).unwrap();
    assert!(matches!(read(&config, "mouse"), Answer::Switch(false)));
    assert!(matches!(read(&config, "depth"), Answer::Number(3)));
}

#[test]
fn a_setting_is_known_by_its_key() {
    assert!(is_setting("mouse"));
    assert!(!is_setting("moose"));
    assert!(told("mouse").is_some());
    assert_eq!(also("moose"), "");
    assert_eq!(mode_after("default-mode", &Answer::Word("insert".into())), Some(Mode::Insert));
    assert_eq!(mode_after("mouse", &Answer::Word("insert".into())), None);
}

#[test]
fn a_setting_is_not_written_over_what_is_no_table() {
    assert!(write_setting("editor = 1\n", "mouse", &Answer::Switch(true)).is_err());
    assert!(write_setting("[editor", "mouse", &Answer::Switch(true)).is_err());
    let refused = write_setting("", "mouse", &Answer::Other("[1,2]".into())).unwrap_err();
    assert_eq!(refused.says("config.toml"), "[1,2] cannot be written to config.toml");
    let refused = write_setting("", "mouse", &Answer::Fraction("one".into())).unwrap_err();
    assert_eq!(refused.says("config.toml"), "one cannot be written to config.toml");
}

#[test]
fn keys_walk_the_settings() {
    let mut screen = empty();
    assert!(matches!(screen.handle_key(plain(KeyCode::Esc)), SettingsTask::Close));
    screen.handle_key(plain(KeyCode::Down));
    assert_eq!(screen.cursor, 1);
    screen.handle_key(plain(KeyCode::Up));
    assert_eq!(screen.cursor, 0);
    screen.handle_key(plain(KeyCode::Char('m')));
    assert_eq!(screen.query, "m");
    screen.handle_key(plain(KeyCode::Backspace));
    assert_eq!(screen.query, "");
    assert!(screen.in_focus().is_some());
}

#[test]
fn a_click_lands_on_the_line_drawn_there() {
    let mut screen = empty();
    let count = settings().len();
    let texts = vec![String::new(); count];
    screen.lay_out(Rect { x: 0, y: 0, width: 120, height: 40 }, &texts, &texts);
    assert!(screen.rows.len() > 2);
    let line = screen.rows[2];
    screen.handle_mouse(MouseEvent {
        kind: MouseEventKind::Down(MouseButton::Left),
        column: line.x,
        row: line.y,
        modifiers: KeyModifiers { shift: false, control: false, alt: false, meta: false },
    });
    assert_eq!(screen.cursor, 2);
}

#[test]
fn every_other_line_stays_as_it_was() {
    let text = "# top\n[editor] # head\n# above\nmouse = true # behind\n\n  line-number   = 'absolute'\n# end\n";
    let written = write_setting(text, "mouse", &Answer::Switch(false)).unwrap();
    assert_eq!(written, text.replace("mouse = true", "mouse = false"));
    // A new one comes last in its table.
    let written = write_setting(text, "scrolloff", &Answer::Number(3)).unwrap();
    let line = "  line-number   = 'absolute'\n";
    assert_eq!(written, text.replace(line, &format!("{line}scrolloff = 3\n")));
}

#[test]
fn a_number_that_is_no_integer_is_written() {
    let written = write_setting("", "idle", &Answer::Fraction("1.5".into())).unwrap();
    assert_eq!(written, "[editor]\nidle = 1.5\n");
    let written = write_setting("", "idle", &Answer::Fraction("18446744073709551615".into())).unwrap();
    let read: toml::Table = toml::from_str(&written).unwrap();
    assert_eq!(read["editor"]["idle"].as_float(), Some(18446744073709551615.0));
}

#[test]
fn a_value_of_another_kind_is_shown_as_json_has_it() {
    let mut config: serde_json::Value = serde_json::from_str(
        "{\"a\":{\"b\":[1,2.5],\"c\":0.25,\"d\":true},\"e\":null}",
    )
    .unwrap();
    assert_eq!(read(&config, "a.b"), Answer::Other("[1,2.5]".into()));
    assert_eq!(read(&config, "a.c"), Answer::Fraction("0.25".into()));
    assert_eq!(read(&config, "e"), Answer::Other("null".into()));
    assert_eq!(read(&config, "none"), Answer::Other("null".into()));
    assert_eq!(shown_value(&find("mouse"), &read(&config, "a.b")), "[1,2.5]");
    apply(&mut config, "a.d", &Answer::Switch(false)).unwrap();
    assert_eq!(read(&config, "a.d"), Answer::Switch(false));
    assert_eq!(read(&config, "a.c"), Answer::Fraction("0.25".into()));
}
