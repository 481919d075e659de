//! Shortcuts: what is in their way, and how they are written.

use sid_term::bindings::{
    by_action, clash, describes, erase, key_label, key_path, restore, restore_all, unset,
    written, Clash, Runs, Where,
};
use sid_term::config::over_defaults;
use sid_term::input::{KeyCode, KeyEvent, KeyModifiers};
use sid_term::keymap::{KeyTrie, KeyTrieNode, Keymaps, MappableCommand, Mode};

fn key(name: &str) -> KeyEvent {
    let mut modifiers = KeyModifiers { shift: false, control: false, alt: false, meta: false };
    let mut rest = name;
    loop {
        if let Some(after) = rest.strip_prefix("C-") {
            modifiers.control = true;
            rest = after;
        } else if let Some(after) = rest.strip_prefix("A-") {
            modifiers.alt = true;
            rest = after;
        } else if let Some(after) = rest.strip_prefix("S-") {
            modifiers.shift = true;
            rest = after;
        } else if let Some(after) = rest.strip_prefix("Cmd-") {
            modifiers.meta = true;
            rest = after;
        } else {
            break;
        }
    }
    let code = match rest {
        "space" => KeyCode::Char(' '),
        "ret" => KeyCode::Enter,
        "F7" => KeyCode::F(7),
        "F9" => KeyCode::F(9),
        one if one.chars().count() == 1 => KeyCode::Char(one.chars().next().unwrap()),
        other => panic!("{other}"),
    };
    KeyEvent { code, modifiers }
}

fn keys(text: &str) -> Vec<KeyEvent> {
    text.split(' ').map(key).collect()
}

fn command(name: &str) -> KeyTrie {
    KeyTrie::MappableCommand(match name.strip_prefix(':') {
        Some(name) => MappableCommand::Typable {
            name: name.to_string(),
            args: String::new(),
            doc: format!("Runs {name}"),
        },
        None => MappableCommand::Static { name: name.to_string(), doc: format!("Does {name}") },
    })
}

fn node(entries: Vec<(KeyEvent, KeyTrie)>) -> KeyTrie {
    KeyTrie::Node(KeyTrieNode { name: String::new(), entries })
}

fn maps(entries: &[(&str, &str)]) -> Keymaps {
    let map = || Some(node(entries.iter().map(|(keys, name)| (key(keys), command(name))).collect()));
    Keymaps { normal: map(), select: map(), insert: map() }
}

const NORMAL: Where = Where::Modal { normal: true, select: false };

#[test]
fn a_key_another_action_has_is_taken() {
    let maps = maps(&[("C-s", ":write")]);
    let taken = clash(&maps, Where::Anywhere, &keys("C-s"), &vec![]);
    assert!(matches!(taken, Some(Clash::Taken { .. })));
    assert!(clash(&maps, Where::Anywhere, &keys("C-j"), &vec![]).is_none());
}

#[test]
fn a_key_that_begins_others_says_how_many_it_would_end() {
    let map = || {
        Some(node(vec![(
            key("space"),
            node(vec![(key("h"), command("file_history")), (key("w"), command("goto_word"))]),
        )]))
    };
    let maps = Keymaps { normal: map(), select: map(), insert: map() };
    match clash(&maps, NORMAL, &keys("space"), &vec![]) {
        Some(Clash::Begins { count, .. }) => assert_eq!(count, 2),
        other => panic!("{other:?}"),
    }
}

#[test]
fn a_key_under_a_command_is_never_reached() {
    let maps = maps(&[("C-s", ":write")]);
    assert!(matches!(
        clash(&maps, Where::Anywhere, &keys("C-s h"), &vec![]),
        Some(Clash::Buried { .. })
    ));
}

#[test]
fn text_keeps_typing_and_a_key_the_terminal_drops_is_said_so() {
    let maps = maps(&[]);
    assert_eq!(clash(&maps, Where::Anywhere, &keys("a"), &vec![]), Some(Clash::Text));
    assert_eq!(clash(&maps, Where::Insert, &keys("A"), &vec![]), Some(Clash::Text));
    // Out of insert, a letter is a shortcut like any other.
    assert!(clash(&maps, NORMAL, &keys("a"), &vec![]).is_none());
    assert_eq!(
        clash(&maps, Where::Anywhere, &keys("Cmd-j"), &keys("Cmd-j")),
        Some(Clash::Unreachable)
    );
}

#[test]
fn a_key_left_doing_nothing_is_free() {
    let maps = maps(&[("C-u", "no_op")]);
    assert!(clash(&maps, Where::Anywhere, &keys("C-u"), &vec![]).is_none());
}

#[test]
fn every_shortcut_goes_back_at_once_and_nothing_else_does() {
    let text = "theme = \"github_dark\"\n\n[editor]\nmouse = true\n";
    let text = sid_term::bindings::write(text, Where::Anywhere, &keys("A-C-j"), &Runs::One("duplicate_line".into())).unwrap();
    let text = sid_term::bindings::write(&text, Where::Insert, &keys("F7"), &Runs::One("select_all".into())).unwrap();
    assert!(text.contains("keys"));

    let written = restore_all(&text).unwrap();
    assert!(!written.contains("keys"), "{written}");
    assert!(written.contains("theme = \"github_dark\""));
    assert!(written.contains("mouse = true"));
}

#[test]
fn a_shortcut_of_the_modal_world_is_written_to_both_its_tables() {
    let both = Where::Modal { normal: true, select: true };
    let written = sid_term::bindings::write("", both, &keys("F7"), &Runs::One("select_all".into())).unwrap();
    assert!(written.contains("[keys.normal]\nF7 = \"select_all\""), "{written}");
    assert!(written.contains("[keys.select]\nF7 = \"select_all\""), "{written}");

    let written = erase(&written, both, &keys("F7"), false).unwrap();
    assert!(!written.contains("F7"), "{written}");
}

#[test]
fn a_table_written_on_one_line_is_pruned_like_any_other() {
    let text = "theme = \"github_dark\"\n\n[keys.normal]\nspace = { h = \"file_history\", w = \"goto_word\" }\n";
    let written = erase(text, NORMAL, &keys("space h"), false).unwrap();
    assert!(!written.contains("file_history"), "{written}");
    assert!(written.contains("goto_word"), "{written}");

    // The last one out takes the table with it, and [keys] as well.
    let written = restore(&written, NORMAL, &keys("space w")).unwrap();
    assert!(!written.contains("keys"), "{written}");
    assert!(written.contains("theme = \"github_dark\""));
}

#[test]
fn a_shortcut_is_written_where_it_belongs_and_taken_away_whole() {
    let text = "# mine, and it stays\ntheme = \"github_dark\"\n";
    let text = sid_term::bindings::write(text, Where::Anywhere, &keys("C-A-j"), &Runs::One("duplicate_line".into())).unwrap();
    let written = sid_term::bindings::write(
        &text,
        Where::Insert,
        &keys("space h"),
        &Runs::Many(vec![":write".into(), "duplicate_line".into()]),
    )
    .unwrap();
    assert!(written.contains("# mine, and it stays"));
    assert!(written.contains("[keys.all]\nA-C-j = \"duplicate_line\""));
    assert!(written.contains("[keys.insert.space]\nh = [\":write\", \"duplicate_line\"]"));

    // What it wrote is what is read back, in the modes it was meant for.
    let read: toml::Table = toml::from_str(&over_defaults("", &written).unwrap()).unwrap();
    for mode in ["normal", "select", "insert"] {
        assert_eq!(read["keys"][mode]["A-C-j"].as_str(), Some("duplicate_line"));
    }
    let run: Vec<_> = read["keys"]["insert"]["space"]["h"].as_array().unwrap().iter().map(|name| name.as_str().unwrap()).collect();
    assert_eq!(run.join(" "), ":write duplicate_line");

    let written = erase(&written, Where::Anywhere, &keys("C-s"), true).unwrap();
    assert!(written.contains("C-s = \"no_op\""));

    let written = restore(&written, Where::Insert, &keys("space h")).unwrap();
    assert!(!written.contains("keys.insert"), "{written}");
    assert!(written.contains("A-C-j = \"duplicate_line\""));

    // A chord takes the place of a key of yours that ran a command on its own.
    let written = sid_term::bindings::write(&written, Where::Anywhere, &keys("A-C-j t"), &Runs::One("select_all".into())).unwrap();
    assert!(!written.contains("A-C-j = \"duplicate_line\""), "{written}");
    assert!(written.contains("[keys.all.A-C-j]\nt = \"select_all\""), "{written}");
    assert!(over_defaults("", &written).is_ok());
}

#[test]
fn a_file_that_is_no_toml_is_left_alone() {
    let refused = sid_term::bindings::write("[keys", Where::Anywhere, &keys("F7"), &Runs::One("x".into()));
    assert!(refused.is_err());
    assert!(restore_all("= 1").is_err());
}

#[test]
fn a_table_that_is_no_table_is_said_so() {
    let refused = sid_term::bindings::write("keys = 1\n", Where::Anywhere, &keys("F7"), &Runs::One("x".into()));
    assert_eq!(refused.unwrap_err().says("config.toml"), "'all' is not a table in config.toml");
    let none = sid_term::bindings::write("", Where::Anywhere, &[], &Runs::One("x".into()));
    assert_eq!(none.unwrap_err().says(""), "a shortcut has at least one key");
}

#[test]
fn keys_are_called_what_they_say() {
    assert_eq!(key_label(key("C-P")), "Ctrl+Shift+p");
    assert_eq!(key_label(key("A-z")), "Alt+z");
    assert_eq!(key_label(key("space")), "Space");
    assert_eq!(key_path(&keys("space h")), "Space \u{2192} h");
}

#[test]
fn a_shortcut_given_is_found_and_one_taken_away_is_gone() {
    let mut maps = maps(&[("C-s", ":write")]);
    sid_term::bindings::set(&mut maps, Where::Anywhere, &keys("space h"), &command("file_history"));
    let found = maps.get(Mode::Insert).unwrap().search(&keys("space h"));
    assert_eq!(describes(found.unwrap()), "Does file_history");
    assert!(maps.get(Mode::Normal).unwrap().search(&keys("C-s")).is_some());

    unset(&mut maps, Where::Insert, &keys("space h"));
    assert!(maps.get(Mode::Insert).unwrap().search(&keys("space h")).is_none());
    assert!(maps.get(Mode::Normal).unwrap().search(&keys("space h")).is_some());
}

#[test]
fn keys_are_gathered_under_what_they_run() {
    let map = node(vec![(key("C-s"), command(":write")), (key("F7"), command(":write"))]);
    let actions = by_action(&map, &vec![]);
    assert_eq!(actions.get(&Runs::One(":write".into())).unwrap().len(), 2);
    assert!(actions.get(&Runs::One(":quit".into())).is_none());
    // A key that never arrives is no way to run it.
    let actions = by_action(&map, &keys("F7"));
    assert_eq!(actions.get(&Runs::One(":write".into())).unwrap().len(), 1);
}

#[test]
fn commands_are_written_as_they_are_read() {
    let typable = MappableCommand::Typable {
        name: "toggle-option".into(),
        args: "mouse".into(),
        doc: String::new(),
    };
    assert_eq!(written(&typable), ":toggle-option mouse");
    let fixed = MappableCommand::Static { name: "undo".into(), doc: String::new() };
    assert_eq!(written(&fixed), "undo");
    assert_eq!(Runs::Many(vec![":write".into(), "undo".into()]).text(), ":write undo");
}

#[test]
fn what_runs_is_looked_up_among_what_is_known() {
    let known = vec![(
        "undo".to_string(),
        MappableCommand::Static { name: "undo".into(), doc: "Undo change".into() },
    )];
    assert!(Runs::One("undo".into()).trie(&known).is_ok());
    assert!(Runs::One("redo".into()).trie(&known).unwrap_err().contains("redo"));
    assert!(Runs::Many(vec!["undo".into(), "undo".into()]).trie(&known).is_ok());
}

#[test]
fn what_is_in_the_way_is_said() {
    let text = Clash::Text;
    assert!(text.refuses());
    let taken = Clash::Taken { what: "Undo change".into() };
    assert!(!taken.refuses());
    assert!(taken.says("Ctrl+z").starts_with("Ctrl+z is now «Undo change"));
}

#[test]
fn what_was_written_is_read_whatever_the_file_looked_like() {
    let at = |text: &str, path: &[&str]| -> Option<String> {
        let read: toml::Table = toml::from_str(text).expect("it reads as TOML");
        let mut value = toml::Value::Table(read);
        for name in path {
            value = value.get(name)?.clone();
        }
        value.as_str().map(str::to_string)
    };
    let texts = [
        "",
        "# only a comment",
        "theme = \"dark\"",
        "[keys]\nall.x = \"y\"\n",
        "keys.all.x = \"y\"\n",
        "keys = { all = { x = \"y\" } }\n",
        "[keys.all.space]\nw = \"word\"\n[editor]\nmouse = true\n[keys.normal]\na = \"b\"\n",
        "[keys.all]\n# of mine\nspace = \"gone\" # after it\n# the end",
        "[[list]]\na = 1\n[list.b]\nc = 2\n[keys]\n[[list]]\na = 3\n",
    ];
    for text in texts {
        let runs = Runs::One("file_history".into());
        let written =
            sid_term::bindings::write(text, Where::Anywhere, &keys("space h"), &runs).unwrap();
        assert_eq!(at(&written, &["keys", "all", "space", "h"]).as_deref(), Some("file_history"));
        if text.contains("x = \"y\"") {
            assert_eq!(at(&written, &["keys", "all", "x"]).as_deref(), Some("y"), "{written}");
        }
        let both = Where::Modal { normal: true, select: true };
        let written = sid_term::bindings::write(&written, both, &keys("F7"), &runs).unwrap();
        for table in ["normal", "select"] {
            assert_eq!(at(&written, &["keys", table, "F7"]).as_deref(), Some("file_history"));
        }
        let written = restore(&written, Where::Anywhere, &keys("space h")).unwrap();
        assert_eq!(at(&written, &["keys", "all", "space", "h"]), None);
        assert!(restore_all(&written).is_ok());
    }
}

#[test]
fn every_line_but_the_shortcuts_stays_as_it_was() {
    let text = "# mine\n[keys.all] # head\n# about it\nF7 = \"old\" # behind\nF8 = 'x'\n# end\n";
    let runs = Runs::One("new".into());
    let written = sid_term::bindings::write(text, Where::Anywhere, &keys("F7"), &runs).unwrap();
    assert_eq!(written, text.replace("\"old\"", "\"new\""));
    // A new one comes last, and what was taken away takes its own lines with it.
    let written = sid_term::bindings::write(text, Where::Anywhere, &keys("F9"), &runs).unwrap();
    assert_eq!(written, text.replace("F8 = 'x'\n", "F8 = 'x'\nF9 = \"new\"\n"));
    let written = restore(text, Where::Anywhere, &keys("F7")).unwrap();
    assert_eq!(written, text.replace("# about it\nF7 = \"old\" # behind\n", ""));
    // A command that gives way to a chord is entered again at the end.
    let text = "[keys]\nall = { a = \"x\", b = \"y\" }\n";
    let written = sid_term::bindings::write(text, Where::Anywhere, &keys("a t"), &runs).unwrap();
    let read: toml::Table = toml::from_str(&written).unwrap();
    assert_eq!(read["keys"]["all"]["a"]["t"].as_str(), Some("new"));
    assert!(written.find("b =").unwrap() < written.find("a =").unwrap(), "{written}");
}

#[test]
fn what_was_taken_away_twice_is_as_taken_away_once() {
    let mut maps = maps(&[]);
    sid_term::bindings::set(&mut maps, Where::Anywhere, &keys("space h"), &command("x"));
    sid_term::bindings::set(&mut maps, Where::Anywhere, &keys("space w"), &command("y"));
    unset(&mut maps, Where::Insert, &keys("space h"));
    let insert = maps.insert.as_ref().unwrap();
    assert!(insert.search(&keys("space h")).is_none());
    assert!(insert.search(&keys("space w")).is_some());
    assert!(maps.normal.as_ref().unwrap().search(&keys("space h")).is_some());
    let once = format!("{maps:?}");
    unset(&mut maps, Where::Insert, &keys("space h"));
    assert_eq!(format!("{maps:?}"), once);
}
