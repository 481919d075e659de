//! Sessions, and the configuration.

use sid_term::config::{
    config_parts, default_keys, over_defaults, spread_all_modes, spread_all_modes_text, user_text,
    Config, ConfigLoadError, ConfigRaw, ReadFailure,
};
use sid_term::input::{KeyCode, KeyEvent, KeyModifiers};
use sid_term::keymap::{merge_keys, KeyTrie, KeyTrieNode, Keymaps, MappableCommand, Mode};
use sid_term::paths::{find_file_name, find_parent};
use sid_term::session::{key, key_named, session_file, temporary_file, Pane, Session, Split};
use sid_term::session_toml::{from_tree, read_text, to_tree, write_text, SessionError};
use sid_term::toml_tree::{copy, merge, Toml};

fn view(file: &str, line: usize, column: usize, top: Option<usize>) -> Pane {
    Pane::View { file: file.into(), line, column, top }
}

fn session() -> Session {
    Session {
        files: vec!["a.rs".into(), "b.rs".into()],
        focused: Some("b.rs".into()),
        layout: Some(Pane::Split {
            split: Split::Vertical,
            sizes: vec![7, 3],
            panes: vec![
                view("a.rs", 3, 1, Some(2)),
                Pane::Split {
                    split: Split::Horizontal,
                    sizes: vec![],
                    panes: vec![view("b.rs", 0, 0, None), view("a.rs", 9, 4, Some(9))],
                },
            ],
        }),
    }
}

#[test]
fn a_session_with_splits_reads_back_as_written() {
    let session = session();
    let text = write_text(&session).unwrap();
    let back = read_text(&text).unwrap();

    assert_eq!(format!("{back:?}"), format!("{session:?}"));
    // Even shares and an unknown scroll are left out rather than written as zeros.
    assert_eq!(text.matches("sizes").count(), 1);
    assert_eq!(text.matches("top").count(), 2);
}

#[test]
fn a_session_written_before_sizes_and_scroll_still_reads() {
    let text = "files = [\"a.rs\"]\n\n[layout]\nsplit = \"vertical\"\n\n\
        [[layout.panes]]\nfile = \"a.rs\"\nline = 3\ncolumn = 1\n\n\
        [[layout.panes]]\nfile = \"b.rs\"\nline = 0\ncolumn = 0\n";
    let session = read_text(text).unwrap();
    let Some(Pane::Split { sizes, panes, .. }) = session.layout else {
        panic!("a split");
    };
    assert!(sizes.is_empty());
    assert!(matches!(&panes[0], Pane::View { top: None, line: 3, .. }));
}

#[test]
fn two_projects_called_the_same_are_two_sessions() {
    let one = key("/home/someone/work/site");
    let two = key("/home/someone/play/site");

    assert!(one.starts_with("site-"));
    assert!(two.starts_with("site-"));
    assert_ne!(one, two);

    // And the same project is the same session, run after run.
    assert_eq!(one, key("/home/someone/work/site"));
}

#[test]
fn a_project_is_called_by_its_folder_and_a_hash() {
    assert_eq!(key(""), "workspace-cbf29ce484222325");
    assert_eq!(key_named(b"a", Some("x")), "x-af63dc4c8601ec8c");
    assert!(key("/").starts_with("workspace-"));
    assert!(key("/a/..").starts_with("workspace-"));
    assert_eq!(session_file(""), "workspace-cbf29ce484222325.toml");
    assert_eq!(temporary_file("", 42), ".workspace-cbf29ce484222325.42.toml");
}

#[test]
fn parts_of_paths_are_those_of_std() {
    for path in [
        "", "/", ".", "..", "a", "a/", "a//", "/a", "/a/b", "a/b/", "a/.", "a/./", "./a", "a/..",
        "/..", "//a//b", "/a/./b", "././.", "/.", "a/b/./.", "x.y", ".hidden", "a/.hidden/",
    ] {
        let std_path = std::path::Path::new(path);
        assert_eq!(
            find_file_name(path),
            std_path.file_name().map(|name| name.to_str().unwrap().to_string()),
            "the name of {path:?}"
        );
        assert_eq!(
            find_parent(path),
            std_path.parent().map(|parent| parent.to_str().unwrap().to_string()),
            "the parent of {path:?}"
        );
    }
}

#[test]
fn a_session_that_is_none_is_refused() {
    assert!(matches!(read_text("files = 1"), Err(SessionError::NoSession)));
    assert!(matches!(read_text(""), Err(SessionError::NoSession)));
    assert!(matches!(read_text("files = [\"a\"]\nfocused = 1"), Err(SessionError::NoSession)));
    assert!(matches!(
        read_text("files = []\n[layout]\nfile = \"a\"\nline = -1\ncolumn = 0"),
        Err(SessionError::NoSession)
    ));
    assert!(matches!(read_text("files = ["), Err(SessionError::Flaw(_))));
    assert_eq!(read_text("files = []").unwrap().files.len(), 0);
}

fn nested(splits: usize) -> Session {
    let mut pane = view("a.rs", 1, 2, None);
    for n in 0..splits {
        let split = if n % 2 == 0 { Split::Vertical } else { Split::Horizontal };
        pane = Pane::Split { split, sizes: vec![], panes: vec![pane, view("b.rs", n, 0, Some(1))] };
    }
    Session { files: vec!["a.rs".into(), "é \"b\"\n.rs".into()], focused: None, layout: Some(pane) }
}

#[test]
fn splits_in_splits_read_back_as_deep_as_they_are_read() {
    for splits in [1, 2, 40, 79] {
        let session = nested(splits);
        let text = write_text(&session).unwrap();
        assert_eq!(format!("{:?}", read_text(&text).unwrap()), format!("{session:?}"));
    }
    // Deeper than that, the text is refused.
    let text = write_text(&nested(80)).unwrap();
    assert!(matches!(read_text(&text), Err(SessionError::Flaw(_))));
}

#[test]
fn a_number_that_cannot_be_written_is_not() {
    let session = Session {
        files: vec![],
        focused: None,
        layout: Some(view("a", usize::MAX, 0, None)),
    };
    assert!(to_tree(&session).is_none());
    assert!(write_text(&session).is_none());
}

#[test]
fn a_tree_holds_the_session_it_was_made_of() {
    let session = session();
    let back = from_tree(&to_tree(&session).unwrap()).unwrap();
    assert_eq!(format!("{back:?}"), format!("{session:?}"));
}

// The configuration

fn table(entries: Vec<(&str, Toml)>) -> Toml {
    Toml::Table(entries.into_iter().map(|(name, value)| (name.to_string(), value)).collect())
}

fn text(text: &str) -> Toml {
    Toml::Text(text.into())
}

fn get<'a>(tree: &'a Toml, path: &[&str]) -> Option<&'a Toml> {
    path.iter().try_fold(tree, |tree, name| match tree {
        Toml::Table(entries) => {
            entries.iter().find(|(own, _)| own == name).map(|(_, value)| value)
        }
        _ => None,
    })
}

#[test]
fn a_broken_config_file_is_an_error_not_the_defaults() {
    assert!(matches!(over_defaults("", "[editor"), Err(ConfigLoadError::BadConfig(_))));
}

/// What the editor says of the keys and the settings that these tests speak of.
const DEFAULTS: &str = r#"
    theme = { dark = "dark", light = "light" }

    [editor]
    bufferline = "always"

    [editor.soft-wrap]
    enable = false

    [editor.file-picker]
    git-ignore = false

    [keys.all]
    C-s = ":write"
    C-c = "copy_to_clipboard"

    [keys.normal.space]
    space = "global_search"
"#;

fn command_at(config: &toml::Table, mode: &str, keys: &[&str]) -> String {
    let bound = keys.iter().fold(&config["keys"][mode], |keys, key| &keys[*key]);
    bound.as_str().expect("one command").to_string()
}

#[test]
fn keys_all_reach_every_mode_and_a_modes_own_wins() {
    let user = r#"
[keys.all]
C-j = "move_line_down"
C-h = "move_char_left"

[keys.insert]
C-h = "no_op"
"#;
    let config: toml::Table = toml::from_str(&over_defaults(DEFAULTS, user).unwrap()).unwrap();

    for mode in ["normal", "select", "insert"] {
        assert_eq!(command_at(&config, mode, &["C-j"]), "move_line_down");
    }
    assert_eq!(command_at(&config, "normal", &["C-h"]), "move_char_left");
    assert_eq!(command_at(&config, "insert", &["C-h"]), "no_op");
    // What the defaults put under [keys.all] is still there beneath the user's.
    assert_eq!(command_at(&config, "insert", &["C-s"]), ":write");
    assert!(config["keys"].get("all").is_none());
}

#[test]
fn the_users_config_wins_over_the_defaults() {
    let user = r#"
            theme = "base16_default"

            [editor.soft-wrap]
            enable = false

            [keys.normal]
            C-c = "toggle_comments"

            [keys.normal.space]
            x = "file_picker"
        "#;
    let config: toml::Table = toml::from_str(&over_defaults(DEFAULTS, user).unwrap()).unwrap();

    assert_eq!(config["editor"]["soft-wrap"]["enable"].as_bool(), Some(false));
    assert_eq!(config["theme"].as_str(), Some("base16_default"));
    assert_eq!(command_at(&config, "normal", &["C-c"]), "toggle_comments");
    assert_eq!(command_at(&config, "normal", &["space", "x"]), "file_picker");
    // A key the user added under space leaves the editor's others there.
    assert_eq!(command_at(&config, "normal", &["space", "space"]), "global_search");
    // And what neither names stays the editor's.
    assert_eq!(config["editor"]["file-picker"]["git-ignore"].as_bool(), Some(false));
    assert_eq!(config["editor"]["bufferline"].as_str(), Some("always"));
    assert_eq!(command_at(&config, "insert", &["C-c"]), "copy_to_clipboard");
}

#[test]
fn values_of_every_kind_come_through_unchanged() {
    let written = "a = 1.5\nb = 1979-05-27\nc = [1, \"two\", true]\nd = \"x\"\n";
    let merged: toml::Table = toml::from_str(&over_defaults("", written).unwrap()).unwrap();
    let plain: toml::Table = toml::from_str(written).unwrap();
    assert_eq!(merged, plain);
    let spread: toml::Table = toml::from_str(&spread_all_modes_text(written).unwrap()).unwrap();
    assert_eq!(spread, plain);
    assert!(matches!(spread_all_modes_text("a ="), Err(ConfigLoadError::BadConfig(_))));
    // A document that is read as a date is no configuration.
    let date = "\"$__toml_private_datetime\" = \"1979-05-27\"\n";
    assert!(matches!(spread_all_modes_text(date), Err(ConfigLoadError::BadConfig(_))));
    assert!(matches!(over_defaults("", date), Err(ConfigLoadError::BadConfig(_))));
    assert!(matches!(
        config_parts(sid_term::toml_tree::parse(date).unwrap()),
        Err(ConfigLoadError::BadConfig(_))
    ));
}

#[test]
fn a_configuration_without_keys_is_left_as_it_is() {
    let tree = table(vec![("theme", text("dark"))]);
    let after = spread_all_modes(copy(&tree));
    assert_eq!(format!("{after:?}"), format!("{tree:?}"));
    let odd = table(vec![("keys", text("none"))]);
    assert_eq!(format!("{:?}", spread_all_modes(copy(&odd))), format!("{odd:?}"));
}

#[test]
fn lists_are_laid_over_by_name() {
    let named = |name: &str, value: i64| {
        table(vec![("name", text(name)), ("value", Toml::Number(value))])
    };
    let lower = Toml::List(vec![named("rust", 1), named("c", 2)]);
    let upper = Toml::List(vec![named("rust", 3), named("go", 4)]);
    let Toml::List(items) = merge(lower, upper, 3) else {
        panic!("a list");
    };
    assert_eq!(items.len(), 3);
    assert!(matches!(get(&items[0], &["name"]), Some(Toml::Text(name)) if name == "c"));
    assert!(matches!(get(&items[1], &["value"]), Some(Toml::Number(3))));
    assert!(matches!(get(&items[2], &["value"]), Some(Toml::Number(4))));
    // Behind the depth, the upper alone.
    let lower = table(vec![("a", table(vec![("b", Toml::Flag(true))]))]);
    let upper = table(vec![("a", table(vec![("c", Toml::Flag(true))]))]);
    let merged = merge(lower, upper, 1);
    assert!(get(&merged, &["a", "b"]).is_none());
    assert!(get(&merged, &["a", "c"]).is_some());
}

fn press(c: char) -> KeyEvent {
    KeyEvent {
        code: KeyCode::Char(c),
        modifiers: KeyModifiers { shift: false, control: false, alt: false, meta: false },
    }
}

fn map(entries: &[(char, &str)]) -> KeyTrie {
    KeyTrie::Node(KeyTrieNode {
        name: "Normal mode".into(),
        entries: entries
            .iter()
            .map(|(c, name)| {
                let command = MappableCommand::Static { name: name.to_string(), doc: String::new() };
                (press(*c), KeyTrie::MappableCommand(command))
            })
            .collect(),
    })
}

fn runs(keys: &Keymaps, c: char) -> String {
    match keys.get(Mode::Normal).unwrap().search(&[press(c)]) {
        Some(KeyTrie::MappableCommand(command)) => command.name().to_string(),
        other => panic!("{other:?}"),
    }
}

fn raw(entries: &[(char, &str)], theme: Option<&str>) -> ConfigRaw {
    ConfigRaw {
        theme: theme.map(text),
        keys: Some(Keymaps { normal: Some(map(entries)), select: None, insert: None }),
        editor: Some(table(vec![("mouse", Toml::Flag(false))])),
    }
}

fn built_in() -> Keymaps {
    Keymaps { normal: Some(map(&[('a', "one"), ('b', "two")])), select: None, insert: None }
}

fn named(name: &str, entries: Vec<(KeyEvent, &str)>) -> KeyTrie {
    KeyTrie::Node(KeyTrieNode {
        name: name.into(),
        entries: entries
            .into_iter()
            .map(|(key, name)| {
                let command = MappableCommand::Static { name: name.into(), doc: String::new() };
                (key, KeyTrie::MappableCommand(command))
            })
            .collect(),
    })
}

#[test]
fn parsing_keymaps_config_file() {
    let none = KeyModifiers { shift: false, control: false, alt: false, meta: false };
    let control_a = KeyEvent {
        code: KeyCode::Char('a'),
        modifiers: KeyModifiers { shift: true, control: true, ..none },
    };
    let alt_f12 = KeyEvent { code: KeyCode::F(12), modifiers: KeyModifiers { alt: true, ..none } };
    let sample = || Keymaps {
        normal: Some(named("Normal mode", vec![(alt_f12, "move_next_word_end")])),
        select: None,
        insert: Some(named(
            "Insert mode",
            vec![(press('y'), "move_line_down"), (control_a, "delete_selection")],
        )),
    };
    let built_in = || Keymaps {
        normal: Some(named("Normal mode", vec![(press('h'), "move_char_left")])),
        select: Some(named("Select mode", vec![(press('h'), "extend_char_left")])),
        insert: Some(named("Insert mode", vec![(press('y'), "insert_char")])),
    };

    let mut keys = built_in();
    merge_keys(&mut keys, sample());
    let config = Config::load(
        built_in(),
        Ok(ConfigRaw { theme: None, keys: Some(sample()), editor: None }),
        Err(ConfigLoadError::default()),
    )
    .unwrap();
    assert_eq!(format!("{config:?}"), format!("{:?}", Config::built_in(keys)));

    let insert = config.keys.get(Mode::Insert).unwrap();
    match insert.search(&[press('y')]) {
        Some(KeyTrie::MappableCommand(command)) => assert_eq!(command.name(), "move_line_down"),
        other => panic!("{other:?}"),
    }
    assert!(insert.search(&[control_a]).is_some());
    assert!(config.keys.get(Mode::Normal).unwrap().search(&[alt_f12]).is_some());
    assert!(config.keys.get(Mode::Normal).unwrap().search(&[press('h')]).is_some());
}

#[test]
fn keys_resolve_to_correct_defaults() {
    // From a file with nothing in it.
    let empty = ConfigRaw { theme: None, keys: None, editor: None };
    let config = Config::load(built_in(), Ok(empty), Err(ConfigLoadError::default())).unwrap();
    assert_eq!(format!("{:?}", config.keys), format!("{:?}", built_in()));

    // From no file at all.
    let config = Config::built_in(built_in());
    assert_eq!(format!("{:?}", config.keys), format!("{:?}", built_in()));
}

#[test]
fn a_file_has_no_parts_but_those_there_are() {
    let parts = config_parts(table(vec![("theme", text("dark")), ("keys", table(vec![]))])).unwrap();
    assert!(matches!(parts.theme, Some(Toml::Text(theme)) if theme == "dark"));
    assert!(parts.keys.is_some() && parts.editor.is_none());
    assert!(matches!(
        config_parts(table(vec![("themes", text("dark"))])),
        Err(ConfigLoadError::BadConfig(_))
    ));
}

#[test]
fn a_workspace_wins_over_the_user_and_the_user_over_the_editor() {
    let config = Config::load(
        built_in(),
        Ok(raw(&[('a', "user"), ('c', "user")], Some("dark"))),
        Ok(raw(&[('c', "workspace")], None)),
    )
    .unwrap();
    assert_eq!(runs(&config.keys, 'a'), "user");
    assert_eq!(runs(&config.keys, 'b'), "two");
    assert_eq!(runs(&config.keys, 'c'), "workspace");
    assert!(matches!(config.theme, Some(Toml::Text(theme)) if theme == "dark"));
}

#[test]
fn a_bad_file_is_told_before_one_that_is_not_there() {
    let bad = || Err(ConfigLoadError::BadConfig("bad".into()));
    let gone = || Err(ConfigLoadError::Error("gone".into()));
    let told = Config::load(built_in(), gone(), bad()).unwrap_err();
    assert!(matches!(&told, ConfigLoadError::BadConfig(_)));
    assert_eq!(told.says(), "bad");
    assert!(matches!(
        Config::load(built_in(), bad(), Ok(raw(&[], None))),
        Err(ConfigLoadError::BadConfig(_))
    ));
    assert!(matches!(Config::load(built_in(), gone(), gone()), Err(ConfigLoadError::Error(_))));
    let config = Config::load(built_in(), Ok(raw(&[], Some("x"))), gone()).unwrap();
    assert!(config.theme.is_some());
    assert!(matches!(ConfigLoadError::default(), ConfigLoadError::Error(_)));
}

#[test]
fn a_workspace_does_not_trust_itself() {
    let trust = |level: &str| table(vec![("level", text(level))]);
    let global = Config {
        theme: None,
        keys: built_in(),
        editor: Some(table(vec![("workspace-trust", trust("ask"))])),
    };
    let both = Config {
        theme: None,
        keys: built_in(),
        editor: Some(table(vec![
            ("workspace-trust", trust("insecure")),
            ("mouse", Toml::Flag(false)),
        ])),
    };
    let config = Config::settle(true, global, Ok(both)).unwrap();
    let editor = config.editor.unwrap();
    assert!(matches!(
        get(&editor, &["workspace-trust", "level"]),
        Some(Toml::Text(level)) if level == "ask"
    ));
    assert!(get(&editor, &["mouse"]).is_some());
}

#[test]
fn a_workspace_that_is_not_trusted_says_nothing() {
    let config = Config::settle(
        false,
        Config::built_in(built_in()),
        Err(ConfigLoadError::BadConfig("bad".into())),
    );
    assert!(config.is_ok());
}

#[test]
fn no_file_is_no_error() {
    assert_eq!(user_text(Err(ReadFailure::NotFound)).unwrap(), "");
    assert_eq!(user_text(Ok("a = 1".into())).unwrap(), "a = 1");
    assert!(user_text(Err(ReadFailure::Other("denied".into()))).is_err());
}

#[test]
fn keymaps_are_merged_where_both_lead_on() {
    let mut keys = Keymaps {
        normal: Some(KeyTrie::Node(KeyTrieNode {
            name: String::new(),
            entries: vec![(press(' '), map(&[('h', "history"), ('w', "word")]))],
        })),
        select: None,
        insert: None,
    };
    let over = Keymaps {
        normal: Some(KeyTrie::Node(KeyTrieNode {
            name: String::new(),
            entries: vec![(press(' '), map(&[('w', "other")]))],
        })),
        select: Some(map(&[])),
        insert: None,
    };
    merge_keys(&mut keys, over);
    let normal = keys.get(Mode::Normal).unwrap();
    assert!(normal.search(&[press(' '), press('h')]).is_some());
    match normal.search(&[press(' '), press('w')]) {
        Some(KeyTrie::MappableCommand(command)) => assert_eq!(command.name(), "other"),
        other => panic!("{other:?}"),
    }
    assert!(keys.get(Mode::Select).is_none());
}

#[test]
fn the_editors_keys_are_its_own_where_its_defaults_cannot_be_read() {
    let loaded = Config { theme: None, keys: built_in(), editor: None };
    let none = || Keymaps { normal: None, select: None, insert: None };
    assert!(default_keys(Ok(loaded), none()).normal.is_some());
    let bad = Err(ConfigLoadError::BadConfig("bad".into()));
    assert!(default_keys(bad, none()).normal.is_none());
}
