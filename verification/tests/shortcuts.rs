//! The screen of shortcuts.

use sid_term::bindings::{catalogue, Clash, Runs, Where};
use sid_term::graphics::Rect;
use sid_term::input::{KeyCode, KeyEvent, KeyModifiers};
use sid_term::keymap::{KeyTrie, KeyTrieNode, Keymaps, MappableCommand};
use sid_term::settings::told;
use sid_term::shortcuts::{scopes, settled, Next, Shortcuts, ShortcutsTask};

fn key(name: &str) -> KeyEvent {
    let mut modifiers = KeyModifiers { shift: false, control: false, alt: false, meta: false };
    let mut rest = name;
    loop {
        if let Some(after) = rest.strip_prefix("C-") {
            modifiers.control = true;
            rest = after;
        } else if let Some(after) = rest.strip_prefix("A-") {
            modifiers.alt = true;
            rest = after;
        } else {
            break;
        }
    }
    let code = match rest {
        "space" => KeyCode::Char(' '),
        "esc" => KeyCode::Esc,
        "ret" => KeyCode::Enter,
        "down" => KeyCode::Down,
        one if one.chars().count() == 1 => KeyCode::Char(one.chars().next().unwrap()),
        f => KeyCode::F(f[1..].parse().unwrap()),
    };
    KeyEvent { code, modifiers }
}

fn fixed(name: &str, doc: &str) -> MappableCommand {
    MappableCommand::Static { name: name.into(), doc: doc.into() }
}

fn statics() -> Vec<MappableCommand> {
    vec![
        fixed("duplicate_line", "Duplicate the line"),
        fixed("select_all", "Select whole document"),
        fixed("file_history", "The history of the file"),
        fixed("keyboard_shortcuts", "All the keyboard shortcuts"),
        fixed("move_char_left", "Move left"),
        fixed("move_char_right", "Move right"),
    ]
}

fn actions() -> Vec<(Runs, String)> {
    catalogue(&statics(), &vec![("write".to_string(), "Write changes to disk".to_string())])
}

fn command(name: &str) -> MappableCommand {
    if let Some(rest) = name.strip_prefix(':') {
        let (name, args) = rest.split_once(' ').unwrap_or((rest, ""));
        let doc = told(args).unwrap_or_default();
        return MappableCommand::Typable { name: name.into(), args: args.into(), doc };
    }
    if name.starts_with('@') {
        return MappableCommand::Macro { name: name.into(), keys: vec![key("m")] };
    }
    statics()
        .into_iter()
        .find(|command| command.name() == name)
        .unwrap_or_else(|| fixed(name, "Does nothing"))
}

fn leaf(name: &str) -> KeyTrie {
    KeyTrie::MappableCommand(command(name))
}

fn node(entries: Vec<(KeyEvent, KeyTrie)>) -> KeyTrie {
    KeyTrie::Node(KeyTrieNode { name: String::new(), entries })
}

fn none() -> Keymaps {
    Keymaps { normal: None, select: None, insert: None }
}

fn everywhere(entries: &[(&str, &str)]) -> Keymaps {
    let map = || Some(node(entries.iter().map(|(keys, name)| (key(keys), leaf(name))).collect()));
    Keymaps { normal: map(), select: map(), insert: map() }
}

fn screen_of(maps: &Keymaps) -> Shortcuts {
    Shortcuts::new(maps, none(), vec![], actions())
}

#[test]
fn the_list_has_the_shortcuts_and_everything_else_the_editor_can_do() {
    let mut screen = screen_of(&Keymaps {
        normal: None,
        select: None,
        insert: Some(node(vec![
            (key("C-P"), leaf("keyboard_shortcuts")),
            (
                key("F3"),
                KeyTrie::Sequence(vec![command("move_char_right"), command("move_char_left")]),
            ),
            (key("F4"), leaf("@mihello<esc>")),
            (key("F5"), leaf("no_op")),
            (key("space"), node(vec![(key("h"), leaf("file_history"))])),
        ])),
    });
    assert!(screen
        .rows
        .iter()
        .any(|row| row.label == "Ctrl+Shift+p" && row.description.contains("shortcuts")));
    assert!(screen.rows.iter().any(|row| row.label == "Space \u{2192} h"));
    assert!(screen
        .rows
        .iter()
        .any(|row| row.label == "F3" && row.description.contains(';')));
    assert!(screen.rows.iter().any(|row| row.label == "F4"));
    // A key left doing nothing is no shortcut.
    assert!(!screen.rows.iter().any(|row| row.scope == "Insert" && row.label == "F5"));
    // Every action is there, whether a key reaches it or not.
    let unbound = screen
        .rows
        .iter()
        .find(|row| row.runs == Runs::One("duplicate_line".into()))
        .expect("every command is listed");
    assert!(unbound.keys.is_empty());
    assert!(screen.rows.iter().any(|row| row.runs == Runs::One(":write".into())));

    // The tabs are the two worlds and what no key reaches: a panel's own arrows are not
    // shortcuts and are nowhere here.
    assert_eq!(scopes(), ["All", "Insert", "Modal", "Unbound"]);
    assert!(!screen.rows.iter().any(|row| row.scope == "Sidebar"));

    screen.scope = scopes().iter().position(|scope| *scope == "Unbound").unwrap();
    screen.query = "duplicate".into();
    let found = screen.shown();
    assert!(!found.is_empty());
    assert!(found.iter().all(|index| screen.rows[*index].keys.is_empty()));
}

#[test]
fn normal_and_select_are_one_world_and_typing_is_the_other() {
    let modal = || Some(node(vec![(key("A-C-j"), leaf("duplicate_line"))]));
    let typing = Some(node(vec![(key("A-C-k"), leaf("select_all"))]));
    let screen = screen_of(&Keymaps { normal: modal(), select: modal(), insert: typing });
    let at = |label: &str| screen.rows.iter().filter(|row| row.label == label).collect::<Vec<_>>();
    // Normal and select together are one line, not two.
    let modal = at("Ctrl+Alt+j");
    assert_eq!(modal.len(), 1);
    assert_eq!(modal[0].scope, "Modal");
    assert_eq!(modal[0].place, Where::Modal { normal: true, select: true });
    let typing = at("Ctrl+Alt+k");
    assert_eq!(typing.len(), 1);
    assert_eq!(typing[0].scope, "Insert");
    assert_eq!(typing[0].place, Where::Insert);
}

#[test]
fn a_shortcut_of_every_mode_is_one_line_and_not_three() {
    let screen = screen_of(&everywhere(&[("C-A-j", "duplicate_line")]));
    let rows: Vec<_> = screen.rows.iter().filter(|row| row.label == "Ctrl+Alt+j").collect();
    assert_eq!(rows.len(), 1);
    assert_eq!(rows[0].place, Where::Anywhere);
    assert_eq!(rows[0].scope, "Anywhere");
}

#[test]
fn a_setting_can_be_given_a_key_whether_one_reaches_it_or_not() {
    // Alt-z already flips wrapping; the screen shows it by what it does.
    let maps = everywhere(&[("A-z", ":toggle-option soft-wrap.enable")]);
    let screen = screen_of(&maps);
    let wrapping = Runs::One(":toggle-option soft-wrap.enable".into());
    let row = screen.rows.iter().find(|row| row.runs == wrapping).expect("the setting is listed");
    assert_eq!(row.label, "Alt+z");
    assert_eq!(row.description, "Wrap long lines, on or off");
    assert_eq!(
        screen.rows.iter().filter(|row| row.runs == wrapping).count(),
        1,
        "listed once, as a shortcut and not again as something waiting for one"
    );

    // And one no key reaches is waiting there to be given one.
    let blink = Runs::One(":toggle-option cursor-blink".into());
    let waiting = Shortcuts::giving(&maps, none(), vec![], actions(), &blink);
    let capture = waiting.capture.as_ref().expect("it asks for the keys");
    assert_eq!(capture.runs, blink);
    assert!(capture.was.is_empty());
    let name = ":toggle-option cursor-blink";
    let known = vec![(name.to_string(), command(name))];
    assert!(capture.runs.trie(&known).is_ok(), "and what it would write parses");
}

#[test]
fn ctrl_k_in_the_palette_opens_the_screen_asking_for_the_keys() {
    let runs = Runs::One("duplicate_line".into());
    let screen = Shortcuts::giving(&everywhere(&[]), none(), vec![], actions(), &runs);
    let capture = screen.capture.as_ref().expect("it opens asking for the keys");
    assert_eq!(capture.runs, runs);
    // A shortcut given here is given everywhere.
    assert_eq!(capture.place, Where::Anywhere);
    assert!(capture.keys.is_empty());
}

#[test]
fn a_shortcut_just_given_is_on_the_screen_before_config_toml_is_read_again() {
    let mut maps = everywhere(&[]);
    let mut screen = screen_of(&maps);
    let runs = Runs::One("duplicate_line".into());

    sid_term::bindings::set(&mut maps, Where::Anywhere, &[key("C-A-j")], &leaf("duplicate_line"));
    screen.maps = maps;
    screen.gather();

    let row = screen.rows.iter().find(|row| row.runs == runs).expect("the command is listed");
    assert_eq!(row.label, "Ctrl+Alt+j");
    assert_eq!(row.place, Where::Anywhere);
    // And it is no longer waiting for a key.
    assert_eq!(screen.rows.iter().filter(|row| row.runs == runs).count(), 1);
}

#[test]
fn changing_a_shortcut_knows_the_keys_it_takes_the_place_of() {
    let mut screen = screen_of(&everywhere(&[("C-A-j", "duplicate_line"), ("C-A-k", "select_all")]));
    let shown = screen.shown();
    screen.cursor = shown
        .iter()
        .position(|index| screen.rows[*index].label == "Ctrl+Alt+j")
        .expect("the shortcut is listed");
    screen.start();
    assert_eq!(
        screen.capture.as_ref().unwrap().was,
        vec![key("C-A-j")],
        "it knows what it is replacing"
    );

    // Its own keys are not in its own way.
    screen.press(key("C-A-j"));
    assert!(screen.capture.as_ref().unwrap().clash.is_none());

    // Another action's are.
    screen.capture.as_mut().unwrap().keys.clear();
    screen.press(key("C-A-k"));
    assert!(matches!(screen.capture.as_ref().unwrap().clash, Some(Clash::Taken { .. })));
}

#[test]
fn the_keys_pressed_are_the_ones_config_toml_would_write() {
    let shift_s = KeyEvent {
        code: KeyCode::Char('s'),
        modifiers: KeyModifiers { shift: true, control: true, alt: false, meta: false },
    };
    assert_eq!(settled(shift_s), key("C-S"));
    assert_eq!(settled(key("C-s")), key("C-s"));
    // A key that is settled stays.
    assert_eq!(settled(settled(shift_s)), settled(shift_s));
}

#[test]
fn a_shortcut_given_is_written_and_then_there() {
    let known = vec![("duplicate_line".to_string(), command("duplicate_line"))];
    let runs = Runs::One("duplicate_line".into());
    let mut screen = Shortcuts::giving(&everywhere(&[]), none(), vec![], actions(), &runs);
    screen.press(key("C-A-j"));
    let change = screen.give().expect("the keys are given");
    assert_eq!(screen.gave(&change, Ok(()), &known), Next::Settle);
    screen.settle(&change, false);
    assert!(screen.rows.iter().any(|row| row.runs == runs && row.label == "Ctrl+Alt+j"));
    assert!(screen.capture.is_none());
}

#[test]
fn every_key_goes_back_only_when_asked_twice() {
    let mut screen = screen_of(&everywhere(&[]));
    assert!(!screen.give_all_back());
    assert!(screen.give_all_back());
    assert!(!screen.give_all_back());
}

#[test]
fn the_screen_closes_on_escape_and_draws_what_fits() {
    let mut screen = screen_of(&everywhere(&[("C-A-j", "duplicate_line")]));
    let (popup, _, list) = screen.lay_out(Rect { x: 0, y: 0, width: 100, height: 30 }, "1.0");
    assert!(popup.width <= 100 && popup.height <= 30);
    assert!(list.is_some());
    assert!(!screen.drawn.is_empty());
    screen.handle_key(key("down"));
    assert_eq!(screen.cursor, 1);
    assert!(screen.footer().contains(" of "));
    assert_eq!(screen.handle_key(key("esc")), ShortcutsTask::Close);
}

#[test]
fn a_shortcut_is_taken_away_and_given_back() {
    let own = everywhere(&[("C-A-j", "duplicate_line")]);
    let mut screen = Shortcuts::new(
        &own,
        everywhere(&[("C-A-j", "duplicate_line")]),
        vec![],
        actions(),
    );
    let shown = screen.shown();
    screen.cursor = shown
        .iter()
        .position(|index| screen.rows[*index].label == "Ctrl+Alt+j")
        .expect("the shortcut is listed");
    let (place, keys, description, is_own) = screen.take_away().expect("it has keys");
    assert_eq!(place, Where::Anywhere);
    assert_eq!(keys, vec![key("C-A-j")]);
    assert_eq!(description, "Duplicate the line");
    assert!(is_own);

    // A file that cannot be written changes nothing.
    screen.took_away(place, &keys, &description, Err("read only".to_string()));
    assert_eq!(screen.status_line(), ("Not written down: read only", true));
    assert!(screen.rows.iter().any(|row| row.label == "Ctrl+Alt+j"));

    screen.took_away(place, &keys, &description, Ok(()));
    assert_eq!(screen.said.as_deref(), Some("«Duplicate the line» has no shortcut now"));
    assert!(!screen.rows.iter().any(|row| row.label == "Ctrl+Alt+j"));
    assert!(screen.rows.iter().any(|row| row.shown_keys() == "—"));

    screen.gave_back(place, &keys, Ok(()));
    assert_eq!(screen.said.as_deref(), Some("Ctrl+Alt+j is «Duplicate the line» again"));
    let row = screen.rows.iter().find(|row| row.label == "Ctrl+Alt+j").expect("it is back");
    assert_eq!(row.shown_keys(), "Ctrl+Alt+j");

    // Keys the editor has nothing on are free.
    screen.gave_back(place, &[key("C-A-k")], Ok(()));
    assert_eq!(screen.said.as_deref(), Some("Ctrl+Alt+k is free again"));
}

#[test]
fn every_shortcut_goes_back() {
    let mut screen = Shortcuts::new(
        &everywhere(&[("C-A-k", "select_all")]),
        everywhere(&[("C-A-j", "duplicate_line")]),
        vec![],
        actions(),
    );
    assert!(!screen.status_line().1);
    assert!(screen.status_line().0.starts_with("Enter to change it"));
    screen.gave_all_back(Err("no room".to_string()));
    assert_eq!(screen.said.as_deref(), Some("Not written down: no room"));
    screen.gave_all_back(Ok(()));
    assert_eq!(screen.said.as_deref(), Some("Every shortcut is sid's own again"));
    assert!(screen.rows.iter().any(|row| row.label == "Ctrl+Alt+j"));
    assert!(!screen.rows.iter().any(|row| row.label == "Ctrl+Alt+k"));
}

#[test]
fn the_box_asks_for_the_keys_and_says_what_they_cost() {
    let popup = Rect { x: 0, y: 0, width: 100, height: 30 };
    let maps = everywhere(&[("C-A-j", "duplicate_line"), ("C-A-k", "select_all")]);
    let mut screen = screen_of(&maps);
    assert!(screen.capture_box(popup).is_none());
    let shown = screen.shown();
    screen.cursor = shown
        .iter()
        .position(|index| screen.rows[*index].label == "Ctrl+Alt+j")
        .expect("the shortcut is listed");
    screen.start();
    let asks = screen.capture_box(popup).expect("it asks");
    assert_eq!(asks.title, "Shortcut for «Duplicate the line» · Anywhere");
    assert_eq!(asks.pressed, "Press the keys…    now Ctrl+Alt+j");
    assert_eq!(asks.hint, "Esc goes back");
    assert!(asks.clash.is_none());
    assert_eq!(asks.area, Rect { x: 25, y: 11, width: 50, height: 7 });
    let lines = asks.lines.expect("there is room");
    assert_eq!((lines.x, lines.room), (27, 46));
    assert_eq!((lines.title, lines.pressed, lines.clash, lines.hint), (12, 14, None, 16));

    screen.press(key("C-A-k"));
    let asks = screen.capture_box(popup).expect("it asks");
    assert_eq!(asks.pressed, "Ctrl+Alt+k    instead of Ctrl+Alt+j");
    assert_eq!(asks.hint, "Enter takes it · Esc goes back");
    assert!(asks.clash.is_some());
    assert_eq!(asks.area.height, 8);

    // With no room for a line nothing is written.
    let narrow = screen.capture_box(Rect { x: 0, y: 0, width: 5, height: 30 }).expect("it asks");
    assert!(narrow.lines.is_none());
}

#[test]
fn what_is_typed_is_shown_with_a_caret() {
    assert_eq!(sid_term::filter::filter_line("wrap"), "Filter: wrap▏");
}
