//! What a shortcut is, where it works, and what stands in its way.

use crate::input::{key_name, key_words, KeyCode, KeyEvent};
use crate::keymap::{copy_keys, entries_view, entry_of, keys_once, lemma_child, lemma_entry_of,
    lemma_keys_once, lemma_node_view, searched, told_apart, CommandView, KeyTrie, KeyTrieNode,
    Keymaps, KeymapsView, MappableCommand, Mode, TrieView};
use crate::settings::{all_settings, as_commands, command_of, given_for, said_of, SettingView};
use crate::text::{append_str, chars, copy_texts, decimal, join, joined, lower_ascii, same_str,
    string, to_lower_ascii, write_number};
use crate::toml_file::{an_entry_written_is_there, apart, document_as_read, document_contents,
    document_layout, document_tail, document_text, is_table, laid_pruned, laid_with, laid_without,
    layout_of, lemma_sound_with, lemma_under, nothing, opened, parse_document, print_document,
    prune, put, remove, root, same_line, shallow, sound, tail_of,
    taking_away_leaves_the_other_lines, taking_away_leaves_the_rest_alone, texts, toml_of, under,
    value_of, what_was_written_is_read, with_entry, with_under, without_entry, writes,
    writing_leaves_the_other_lines, writing_leaves_the_rest_alone, written_as, Contents, EditError,
    EditErrorView, Entry, Held, Layout, Path};
use crate::width::capped;
use vstd::prelude::*;
use vstd::slice::slice_subrange;

verus! {

// ---------------------------------------------------------------------------------------
// Where a shortcut works
// ---------------------------------------------------------------------------------------

/// Where a shortcut works, which is also the table `config.toml` writes it under.
///
/// There are two worlds, not three modes: typing, and the modal editing that normal and
/// select are two halves of. A shortcut given here belongs to neither: it works wherever
/// you are.
#[derive(Clone, Copy, PartialEq, Eq, Structural, Debug)]
pub enum Where {
    /// Wherever you are, whatever the mode: `[keys.all]`.
    Anywhere,
    /// Only while typing: `[keys.insert]`.
    Insert,
    /// Only while editing modally. Normal and select are the same world to whoever uses
    /// it; the two flags remember which of the two tables the shortcut actually lives
    /// in, so changing it writes back exactly where it was.
    Modal { normal: bool, select: bool },
}

impl Where {
    /// Whether it reaches a mode.
    pub open spec fn reaches(self, mode: Mode) -> bool {
        match self {
            Where::Anywhere => true,
            Where::Insert => mode == Mode::Insert,
            Where::Modal { normal, select } => match mode {
                Mode::Normal => normal,
                Mode::Select => select,
                Mode::Insert => false,
            },
        }
    }

    pub open spec fn spec_modes(self) -> Seq<Mode> {
        (if self.reaches(Mode::Normal) {
            seq![Mode::Normal]
        } else {
            seq![]
        }) + (if self.reaches(Mode::Select) {
            seq![Mode::Select]
        } else {
            seq![]
        }) + (if self.reaches(Mode::Insert) {
            seq![Mode::Insert]
        } else {
            seq![]
        })
    }

    pub open spec fn spec_tables(self) -> Seq<Seq<char>> {
        match self {
            Where::Anywhere => seq!["all"@],
            Where::Insert => seq!["insert"@],
            Where::Modal { normal, select } => (if normal {
                seq!["normal"@]
            } else {
                seq![]
            }) + (if select {
                seq!["select"@]
            } else {
                seq![]
            }),
        }
    }

    pub open spec fn spec_label(self) -> Seq<char> {
        match self {
            Where::Anywhere => "Anywhere"@,
            Where::Insert => "Insert"@,
            Where::Modal { .. } => "Modal"@,
        }
    }

    fn holds(self, mode: Mode) -> (r: bool)
        ensures
            r == self.reaches(mode),
    {
        match self {
            Where::Anywhere => true,
            Where::Insert => mode == Mode::Insert,
            Where::Modal { normal, select } => match mode {
                Mode::Normal => normal,
                Mode::Select => select,
                Mode::Insert => false,
            },
        }
    }

    /// The modes it reaches, which are the ones a clash has to be looked for in.
    pub fn modes(self) -> (r: Vec<Mode>)
        ensures
            r@ == self.spec_modes(),
    {
        let mut modes: Vec<Mode> = Vec::new();
        if self.holds(Mode::Normal) {
            modes.push(Mode::Normal);
        }
        if self.holds(Mode::Select) {
            modes.push(Mode::Select);
        }
        if self.holds(Mode::Insert) {
            modes.push(Mode::Insert);
        }
        proof {
            assert(modes@ =~= self.spec_modes());
        }
        modes
    }

    /// The tables in `config.toml` it is written under.
    pub fn tables(self) -> (r: Vec<&'static str>)
        ensures
            r@.map_values(|table: &'static str| table@) == self.spec_tables(),
    {
        let mut tables: Vec<&'static str> = Vec::new();
        match self {
            Where::Anywhere => {
                tables.push("all");
            },
            Where::Insert => {
                tables.push("insert");
            },
            Where::Modal { normal, select } => {
                if normal {
                    tables.push("normal");
                }
                if select {
                    tables.push("select");
                }
            },
        }
        proof {
            assert(tables@.map_values(|table: &'static str| table@) =~= self.spec_tables());
        }
        tables
    }

    /// How it reads on screen.
    pub fn label(self) -> (r: &'static str)
        ensures
            r@ == self.spec_label(),
    {
        match self {
            Where::Anywhere => "Anywhere",
            Where::Insert => "Insert",
            Where::Modal { .. } => "Modal",
        }
    }
}

/// A shortcut that is written somewhere works somewhere, and one table at most is written
/// for each mode it reaches.
pub proof fn tables_stand_for_modes(place: Where)
    ensures
        place.spec_tables().len() == 0 <==> place.spec_modes().len() == 0,
        place.spec_tables().len() <= place.spec_modes().len() <= 3,
{
}

// ---------------------------------------------------------------------------------------
// What a shortcut runs
// ---------------------------------------------------------------------------------------

/// What a shortcut runs, in the very form `config.toml` writes it.
#[derive(PartialEq, Eq, Hash, Debug)]
pub enum Runs {
    /// One command: `duplicate_line`, `:write`, or a macro's `@…`.
    One(String),
    /// Several, one after the other.
    Many(Vec<String>),
}

#[verifier::ext_equal]
pub enum RunsView {
    One(Seq<char>),
    Many(Seq<Seq<char>>),
}

impl DeepView for Runs {
    type V = RunsView;

    open spec fn deep_view(&self) -> RunsView {
        match self {
            Runs::One(one) => RunsView::One(one@),
            Runs::Many(many) => RunsView::Many(many.deep_view()),
        }
    }
}

/// How `config.toml` spells a command: a typable one keeps its colon and its arguments.
pub open spec fn spelled(command: CommandView) -> Seq<char> {
    match command {
        CommandView::Typable { name, args, .. } => if args.len() == 0 {
            ":"@ + name
        } else {
            ":"@ + name + " "@ + args
        },
        other => other.name(),
    }
}

/// How `config.toml` spells a command.
pub fn written(command: &MappableCommand) -> (r: String)
    ensures
        r@ == spelled(command.deep_view()),
{
    match command {
        MappableCommand::Typable { name, args, .. } => {
            let mut words: Vec<char> = chars(":");
            append_str(&mut words, name.as_str());
            let letters: Vec<char> = chars(args.as_str());
            if letters.len() > 0 {
                append_str(&mut words, " ");
                append_str(&mut words, args.as_str());
            }
            string(words.as_slice())
        },
        other => other.name().to_string(),
    }
}

/// The commands that are known, each under what `config.toml` writes for it.
pub type KnownView = Seq<(Seq<char>, CommandView)>;

/// The first known command from `k` on that is written so.
pub open spec fn known_as(known: KnownView, text: Seq<char>, k: int) -> Option<CommandView>
    decreases known.len() - k,
{
    if k >= known.len() {
        None
    } else if known[k].0 == text {
        Some(known[k].1)
    } else {
        known_as(known, text, k + 1)
    }
}

/// The first `n` of several commands, as far as all of them are known; the first that is
/// not, where one is not.
pub open spec fn all_known(known: KnownView, many: Seq<Seq<char>>, n: nat) -> Result<
    Seq<CommandView>,
    Seq<char>,
>
    decreases n,
{
    if n == 0 {
        Ok(Seq::empty())
    } else {
        match all_known(known, many, (n - 1) as nat) {
            Err(unknown) => Err(unknown),
            Ok(before) => match known_as(known, many[n - 1], 0) {
                Some(command) => Ok(before.push(command)),
                None => Err(many[n - 1]),
            },
        }
    }
}

impl RunsView {
    /// What it runs, in one line.
    pub open spec fn text(self) -> Seq<char> {
        match self {
            RunsView::One(one) => one,
            RunsView::Many(many) => joined(many, " "@),
        }
    }

    /// The same thing as the keymap holds it, or the command that is not known.
    pub open spec fn trie(self, known: KnownView) -> Result<TrieView, Seq<char>> {
        match self {
            RunsView::One(one) => match known_as(known, one, 0) {
                Some(command) => Ok(TrieView::Command(command)),
                None => Err(one),
            },
            RunsView::Many(many) => match all_known(known, many, many.len()) {
                Ok(commands) => Ok(TrieView::Sequence(commands)),
                Err(unknown) => Err(unknown),
            },
        }
    }
}

fn find_known(known: &Vec<(String, MappableCommand)>, text: &str) -> (r: Option<MappableCommand>)
    ensures
        r.deep_view() == known_as(known.deep_view(), text@, 0),
{
    let ghost all = known.deep_view();
    let mut k: usize = 0;
    while k < known.len()
        invariant
            k <= known@.len(),
            all == known.deep_view(),
            known_as(all, text@, 0) == known_as(all, text@, k as int),
        decreases known@.len() - k,
    {
        proof {
            assert(all[k as int] == (known@[k as int].0@, known@[k as int].1.deep_view()));
        }
        if same_str(known[k].0.as_str(), text) {
            return Some(known[k].1.copy());
        }
        k = k + 1;
    }
    None
}

fn same_texts(a: &Vec<String>, b: &Vec<String>) -> (r: bool)
    ensures
        r == (a.deep_view() == b.deep_view()),
{
    if a.len() != b.len() {
        proof {
            assert(a.deep_view().len() != b.deep_view().len());
        }
        return false;
    }
    let mut n: usize = 0;
    while n < a.len()
        invariant
            n <= a@.len() == b@.len(),
            forall|i: int| 0 <= i < n ==> a.deep_view()[i] == b.deep_view()[i],
        decreases a@.len() - n,
    {
        if !same_str(a[n].as_str(), b[n].as_str()) {
            proof {
                assert(a.deep_view()[n as int] != b.deep_view()[n as int]);
            }
            return false;
        }
        n = n + 1;
    }
    proof {
        assert(a.deep_view() =~= b.deep_view());
    }
    true
}

impl Runs {
    /// The command as `config.toml` spells it: typables keep their colon and their
    /// arguments.
    pub fn of(command: &MappableCommand) -> (r: Runs)
        ensures
            r.deep_view() == RunsView::One(spelled(command.deep_view())),
    {
        Runs::One(written(command))
    }

    /// What it runs, for the search line.
    pub fn text(&self) -> (r: String)
        ensures
            r@ == self.deep_view().text(),
    {
        match self {
            Runs::One(one) => one.clone(),
            Runs::Many(many) => join(many, " "),
        }
    }

    pub fn copy(&self) -> (r: Runs)
        ensures
            r.deep_view() == self.deep_view(),
    {
        match self {
            Runs::One(one) => Runs::One(one.clone()),
            Runs::Many(many) => Runs::Many(copy_texts(many)),
        }
    }

    pub fn same(&self, other: &Runs) -> (r: bool)
        ensures
            r == (self.deep_view() == other.deep_view()),
    {
        match (self, other) {
            (Runs::One(a), Runs::One(b)) => same_str(a.as_str(), b.as_str()),
            (Runs::Many(a), Runs::Many(b)) => same_texts(a, b),
            _ => false,
        }
    }

    /// The same thing as the keymap holds it, so a change shows on screen at once; the
    /// first command that is not known, where one is not.
    pub fn trie(&self, known: &Vec<(String, MappableCommand)>) -> (r: Result<KeyTrie, String>)
        ensures
            match r {
                Ok(trie) => self.deep_view().trie(known.deep_view()) == Ok::<TrieView, Seq<char>>(
                    trie.deep_view(),
                ),
                Err(unknown) => self.deep_view().trie(known.deep_view()) == Err::<
                    TrieView,
                    Seq<char>,
                >(unknown@),
            },
    {
        match self {
            Runs::One(one) => match find_known(known, one.as_str()) {
                Some(command) => Ok(KeyTrie::MappableCommand(command)),
                None => Err(one.clone()),
            },
            Runs::Many(many) => {
                let ghost all = many.deep_view();
                let ghost list = known.deep_view();
                let mut commands: Vec<MappableCommand> = Vec::new();
                let mut n: usize = 0;
                proof {
                    assert(commands.deep_view() =~= Seq::empty());
                }
                while n < many.len()
                    invariant
                        n <= many@.len(),
                        all == many.deep_view(),
                        list == known.deep_view(),
                        all_known(list, all, n as nat) == Ok::<Seq<CommandView>, Seq<char>>(
                            commands.deep_view(),
                        ),
                        self.deep_view() == RunsView::Many(all),
                    decreases many@.len() - n,
                {
                    proof {
                        assert(all[n as int] == many@[n as int]@);
                    }
                    let ghost before = commands.deep_view();
                    match find_known(known, many[n].as_str()) {
                        Some(command) => {
                            commands.push(command);
                            proof {
                                assert(commands.deep_view() =~= before.push(command.deep_view()));
                            }
                        },
                        None => {
                            proof {
                                lemma_unknown(list, all, n as nat + 1, all.len());
                            }
                            return Err(many[n].clone());
                        },
                    }
                    n = n + 1;
                }
                Ok(KeyTrie::Sequence(commands))
            },
        }
    }
}

proof fn lemma_unknown(known: KnownView, many: Seq<Seq<char>>, n: nat, m: nat)
    requires
        n <= m,
        all_known(known, many, n) is Err,
    ensures
        all_known(known, many, m) == all_known(known, many, n),
    decreases m - n,
{
    if n < m {
        lemma_unknown(known, many, n, (m - 1) as nat);
    }
}

// ---------------------------------------------------------------------------------------
// Shortcuts in words
// ---------------------------------------------------------------------------------------

/// What commands do, one after the other.
pub open spec fn docs(commands: Seq<CommandView>) -> Seq<Seq<char>> {
    commands.map_values(|command: CommandView| command.doc())
}

/// What a shortcut does, in words, as the screen says it.
pub open spec fn in_words(trie: TrieView) -> Seq<char> {
    match trie {
        TrieView::Command(command) => command.doc(),
        TrieView::Sequence(commands) => joined(docs(commands), "; "@),
        TrieView::Node(name, _) => name,
    }
}

fn join_docs(commands: &Vec<MappableCommand>) -> (r: String)
    ensures
        r@ == joined(docs(commands.deep_view()), "; "@),
{
    let mut words: Vec<String> = Vec::new();
    let mut n: usize = 0;
    while n < commands.len()
        invariant
            n <= commands@.len(),
            words@.len() == n,
            forall|i: int|
                0 <= i < n ==> (#[trigger] words@[i])@ == commands@[i].deep_view().doc(),
        decreases commands@.len() - n,
    {
        words.push(commands[n].doc().to_string());
        n = n + 1;
    }
    proof {
        assert(words.deep_view() =~= docs(commands.deep_view()));
    }
    join(&words, "; ")
}

/// What a shortcut does, in words, as the screen says it.
pub fn describes(trie: &KeyTrie) -> (r: String)
    ensures
        r@ == in_words(trie.deep_view()),
{
    match trie {
        KeyTrie::MappableCommand(command) => command.doc().to_string(),
        KeyTrie::Sequence(commands) => join_docs(commands),
        KeyTrie::Node(node) => {
            proof {
                lemma_node_view(*node);
            }
            node.name.clone()
        },
    }
}

/// What a key is called on screen, its modifiers left out.
pub open spec fn code_label(code: KeyCode) -> Seq<char> {
    match code {
        KeyCode::Char(c) => if c == ' ' {
            "Space"@
        } else {
            crate::input::code_words(code)
        },
        KeyCode::Enter => "Enter"@,
        KeyCode::Esc => "Esc"@,
        _ => crate::input::code_words(code),
    }
}

/// Whether a key is a capital letter held with a modifier, which reads as Shift and the
/// small letter.
pub open spec fn is_shifted_letter(key: KeyEvent) -> bool {
    !key.modifiers.spec_is_empty() && (key.code matches KeyCode::Char(c)
        && crate::text::is_upper_ascii(c))
}

/// How a key reads: "Ctrl+S", "Space", "Ctrl+Alt+j".
pub open spec fn label_of(key: KeyEvent) -> Seq<char> {
    (if key.modifiers.control {
        "Ctrl"@ + "+"@
    } else {
        Seq::empty()
    }) + (if key.modifiers.alt {
        "Alt"@ + "+"@
    } else {
        Seq::empty()
    }) + (if key.modifiers.meta {
        "Cmd"@ + "+"@
    } else {
        Seq::empty()
    }) + (if key.modifiers.shift || is_shifted_letter(key) {
        "Shift"@ + "+"@
    } else {
        Seq::empty()
    }) + code_label(
        if is_shifted_letter(key) {
            KeyCode::Char(lower_ascii(key.code->Char_0))
        } else {
            key.code
        },
    )
}

/// The labels of keys.
pub open spec fn labels_of(keys: Seq<KeyEvent>) -> Seq<Seq<char>> {
    keys.map_values(|key: KeyEvent| label_of(key))
}

/// How keys pressed one after the other read: "Space → h".
pub open spec fn path_label(keys: Seq<KeyEvent>) -> Seq<char> {
    joined(labels_of(keys), " → "@)
}

pub fn key_label(key: KeyEvent) -> (r: String)
    ensures
        r@ == label_of(key),
{
    let mut words: Vec<char> = Vec::new();
    if key.modifiers.control {
        append_str(&mut words, "Ctrl");
        append_str(&mut words, "+");
    }
    if key.modifiers.alt {
        append_str(&mut words, "Alt");
        append_str(&mut words, "+");
    }
    if key.modifiers.meta {
        append_str(&mut words, "Cmd");
        append_str(&mut words, "+");
    }
    let mut code: KeyCode = key.code;
    let mut shift: bool = key.modifiers.shift;
    if !key.modifiers.is_empty() {
        if let KeyCode::Char(c) = key.code {
            if 'A' <= c && c <= 'Z' {
                shift = true;
                code = KeyCode::Char(to_lower_ascii(c));
            }
        }
    }
    if shift {
        append_str(&mut words, "Shift");
        append_str(&mut words, "+");
    }
    let label: String = match code {
        KeyCode::Char(c) => if c == ' ' {
            "Space".to_string()
        } else {
            crate::input::code_name(code)
        },
        KeyCode::Enter => "Enter".to_string(),
        KeyCode::Esc => "Esc".to_string(),
        _ => crate::input::code_name(code),
    };
    append_str(&mut words, label.as_str());
    proof {
        assert(words@ =~= label_of(key));
    }
    string(words.as_slice())
}

/// How a shortcut reads.
pub fn key_path(keys: &[KeyEvent]) -> (r: String)
    ensures
        r@ == path_label(keys@),
{
    let mut labels: Vec<String> = Vec::new();
    let mut n: usize = 0;
    while n < keys.len()
        invariant
            n <= keys@.len(),
            labels@.len() == n,
            forall|i: int| 0 <= i < n ==> (#[trigger] labels@[i])@ == label_of(keys@[i]),
        decreases keys@.len() - n,
    {
        labels.push(key_label(keys[n]));
        n = n + 1;
    }
    proof {
        assert(labels.deep_view() =~= labels_of(keys@));
    }
    join(&labels, " → ")
}

// ---------------------------------------------------------------------------------------
// The shortcuts of a keymap
// ---------------------------------------------------------------------------------------

/// A shortcut: its keys, what it runs, and that in words.
pub type Found = (Vec<KeyEvent>, Runs, String);

#[verifier::ext_equal]
pub struct FoundView {
    pub keys: Seq<KeyEvent>,
    pub runs: RunsView,
    pub words: Seq<char>,
}

pub open spec fn found_view(found: Found) -> FoundView {
    FoundView { keys: found.0@, runs: found.1.deep_view(), words: found.2@ }
}

pub open spec fn all_found(found: Seq<Found>) -> Seq<FoundView> {
    found.map_values(|one: Found| found_view(one))
}

/// The commands of a sequence as `config.toml` spells them.
pub open spec fn all_spelled(commands: Seq<CommandView>) -> Seq<Seq<char>> {
    commands.map_values(|command: CommandView| spelled(command))
}

/// Every shortcut of a keymap that `path` leads to, in the order they are written. A key in
/// `never`, which this terminal never sends, leads to none; nor does a key left doing
/// nothing.
pub open spec fn walked(trie: TrieView, path: Seq<KeyEvent>, never: Seq<KeyEvent>) -> Seq<FoundView>
    decreases trie, 0nat,
{
    match trie {
        TrieView::Node(_, entries) => walked_entries(entries, entries.len(), path, never),
        TrieView::Command(command) => if command.is_no_op() {
            Seq::empty()
        } else {
            seq![
                FoundView {
                    keys: path,
                    runs: RunsView::One(spelled(command)),
                    words: command.doc(),
                },
            ]
        },
        TrieView::Sequence(commands) => seq![
            FoundView {
                keys: path,
                runs: RunsView::Many(all_spelled(commands)),
                words: joined(docs(commands), "; "@),
            },
        ],
    }
}

/// The shortcuts of the first `n` entries of a node.
pub open spec fn walked_entries(
    entries: Seq<(KeyEvent, TrieView)>,
    n: nat,
    path: Seq<KeyEvent>,
    never: Seq<KeyEvent>,
) -> Seq<FoundView>
    decreases entries, n,
{
    if n == 0 || n > entries.len() {
        Seq::empty()
    } else {
        let (key, child) = entries[n - 1];
        walked_entries(entries, (n - 1) as nat, path, never) + (if never.contains(key) {
            Seq::empty()
        } else {
            walked(child, path.push(key), never)
        })
    }
}

pub fn has_key(keys: &[KeyEvent], key: KeyEvent) -> (r: bool)
    ensures
        r == keys@.contains(key),
{
    let mut n: usize = 0;
    while n < keys.len()
        invariant
            n <= keys@.len(),
            forall|i: int| 0 <= i < n ==> keys@[i] != key,
        decreases keys@.len() - n,
    {
        if keys[n] == key {
            return true;
        }
        n = n + 1;
    }
    false
}

fn write_all(commands: &Vec<MappableCommand>) -> (r: Vec<String>)
    ensures
        r.deep_view() == all_spelled(commands.deep_view()),
{
    let mut words: Vec<String> = Vec::new();
    let mut n: usize = 0;
    while n < commands.len()
        invariant
            n <= commands@.len(),
            words@.len() == n,
            forall|i: int|
                0 <= i < n ==> (#[trigger] words@[i])@ == spelled(commands@[i].deep_view()),
        decreases commands@.len() - n,
    {
        words.push(written(&commands[n]));
        n = n + 1;
    }
    proof {
        assert(words.deep_view() =~= all_spelled(commands.deep_view()));
    }
    words
}

/// Walks a keymap gathering every shortcut in it, as keys and what they run. `never` holds
/// the keys this terminal never sends.
pub fn walk(
    trie: &KeyTrie,
    path: &mut Vec<KeyEvent>,
    never: &Vec<KeyEvent>,
    found: &mut Vec<Found>,
)
    ensures
        final(path)@ == old(path)@,
        all_found(final(found)@) == all_found(old(found)@) + walked(
            trie.deep_view(),
            old(path)@,
            never@,
        ),
    decreases trie,
{
    let ghost before = all_found(found@);
    let ghost way = path@;
    match trie {
        KeyTrie::Node(node) => {
            let ghost entries = entries_view(node.entries@);
            let mut n: usize = 0;
            proof {
                lemma_node_view(*node);
                assert(before + Seq::empty() =~= before);
            }
            while n < node.entries.len()
                invariant
                    n <= node.entries@.len(),
                    *trie == KeyTrie::Node(*node),
                    entries == entries_view(node.entries@),
                    path@ == way,
                    all_found(found@) == before + walked_entries(entries, n as nat, way, never@),
                decreases node.entries@.len() - n,
            {
                let entry: &(KeyEvent, KeyTrie) = &node.entries[n];
                proof {
                    lemma_child(*trie, n as int);
                }
                // A key this terminal never sends is not a shortcut here.
                if !has_key(never.as_slice(), entry.0) {
                    path.push(entry.0);
                    walk(&entry.1, path, never, found);
                    let _ = path.pop();
                    proof {
                        assert(path@ =~= way);
                    }
                }
                n = n + 1;
                proof {
                    assert(all_found(found@) =~= before + walked_entries(
                        entries,
                        n as nat,
                        way,
                        never@,
                    ));
                }
            }
        },
        KeyTrie::MappableCommand(command) => {
            if !command.is_no_op() {
                let one: Found = (
                    copy_keys(path.as_slice()),
                    Runs::of(command),
                    command.doc().to_string(),
                );
                found.push(one);
                proof {
                    assert(all_found(found@) =~= before + seq![found_view(one)]);
                }
            } else {
                proof {
                    assert(before + Seq::empty() =~= before);
                }
            }
        },
        KeyTrie::Sequence(commands) => {
            let one: Found = (
                copy_keys(path.as_slice()),
                Runs::Many(write_all(commands)),
                join_docs(commands),
            );
            found.push(one);
            proof {
                assert(all_found(found@) =~= before + seq![found_view(one)]);
            }
        },
    }
}

/// The keys of the first `n` shortcuts that run `runs`, in order.
pub open spec fn keys_for(found: Seq<FoundView>, n: nat, runs: RunsView) -> Seq<Seq<KeyEvent>>
    decreases n,
{
    if n == 0 {
        Seq::empty()
    } else {
        let before = keys_for(found, (n - 1) as nat, runs);
        if found[n - 1].runs == runs {
            before.push(found[n - 1].keys)
        } else {
            before
        }
    }
}

/// The shortcuts of a keymap, by what they run.
#[derive(Debug)]
pub struct ByAction {
    pub actions: Vec<(Runs, Vec<Vec<KeyEvent>>)>,
}

pub open spec fn key_lists(keys: Seq<Vec<KeyEvent>>) -> Seq<Seq<KeyEvent>> {
    keys.map_values(|one: Vec<KeyEvent>| one@)
}

/// The keys under the first action from `k` on that is `runs`; none where no action is.
pub open spec fn action_keys(
    actions: Seq<(Runs, Vec<Vec<KeyEvent>>)>,
    k: int,
    runs: RunsView,
) -> Seq<Seq<KeyEvent>>
    decreases actions.len() - k,
{
    if k >= actions.len() {
        Seq::empty()
    } else if actions[k].0.deep_view() == runs {
        key_lists(actions[k].1@)
    } else {
        action_keys(actions, k + 1, runs)
    }
}

impl ByAction {
    /// The keys that run `runs`.
    pub open spec fn keys(self, runs: RunsView) -> Seq<Seq<KeyEvent>> {
        action_keys(self.actions@, 0, runs)
    }

    fn position(&self, runs: &Runs) -> (r: usize)
        ensures
            r <= self.actions@.len(),
            r < self.actions@.len() ==> self.actions@[r as int].0.deep_view() == runs.deep_view(),
            forall|i: int|
                0 <= i < r ==> (#[trigger] self.actions@[i]).0.deep_view() != runs.deep_view(),
    {
        let mut k: usize = 0;
        while k < self.actions.len()
            invariant
                k <= self.actions@.len(),
                forall|i: int|
                    0 <= i < k ==> (#[trigger] self.actions@[i]).0.deep_view() != runs.deep_view(),
            decreases self.actions@.len() - k,
        {
            if self.actions[k].0.same(runs) {
                return k;
            }
            k = k + 1;
        }
        k
    }

    /// The keys that run `runs`, none where no key does.
    pub fn get(&self, runs: &Runs) -> (r: Option<&Vec<Vec<KeyEvent>>>)
        ensures
            match r {
                Some(keys) => key_lists(keys@) == self.keys(runs.deep_view()),
                None => self.keys(runs.deep_view()).len() == 0,
            },
    {
        let at: usize = self.position(runs);
        proof {
            lemma_action_keys(self.actions@, 0, at as int, runs.deep_view());
        }
        if at < self.actions.len() {
            Some(&self.actions[at].1)
        } else {
            None
        }
    }
}

proof fn lemma_action_keys(
    actions: Seq<(Runs, Vec<Vec<KeyEvent>>)>,
    k: int,
    at: int,
    runs: RunsView,
)
    requires
        0 <= k <= at <= actions.len(),
        at < actions.len() ==> actions[at].0.deep_view() == runs,
        forall|i: int| k <= i < at ==> (#[trigger] actions[i]).0.deep_view() != runs,
    ensures
        action_keys(actions, k, runs) == if at < actions.len() {
            key_lists(actions[at].1@)
        } else {
            Seq::<Seq<KeyEvent>>::empty()
        },
    decreases at - k,
{
    if k < at {
        lemma_action_keys(actions, k + 1, at, runs);
    }
}

/// Changing what stands under one action, or adding one at the end, leaves the others.
proof fn lemma_other_action(
    before: Seq<(Runs, Vec<Vec<KeyEvent>>)>,
    after: Seq<(Runs, Vec<Vec<KeyEvent>>)>,
    k: int,
    changed: RunsView,
    runs: RunsView,
)
    requires
        0 <= k,
        runs != changed,
        before.len() <= after.len() <= before.len() + 1,
        forall|i: int|
            0 <= i < before.len() ==> (#[trigger] after[i]) == before[i] || (
            after[i].0.deep_view() == changed && before[i].0.deep_view() == changed),
        after.len() > before.len() ==> after[before.len() as int].0.deep_view() == changed,
    ensures
        action_keys(after, k, runs) == action_keys(before, k, runs),
    decreases after.len() - k,
{
    if k < after.len() {
        lemma_other_action(before, after, k + 1, changed, runs);
        if k < before.len() {
            assert(after[k] == before[k] || (after[k].0.deep_view() == changed
                && before[k].0.deep_view() == changed));
        }
    }
}

/// Every shortcut of a keymap by what it runs, which is how a command given arguments is
/// told from the same command given others: by name alone every `:toggle-option` is the
/// same command, and they would all show the first one's keys.
pub fn by_action(map: &KeyTrie, never: &Vec<KeyEvent>) -> (r: ByAction)
    ensures
        forall|runs: RunsView| #[trigger]
            r.keys(runs) == keys_for(
                walked(map.deep_view(), Seq::empty(), never@),
                walked(map.deep_view(), Seq::empty(), never@).len(),
                runs,
            ),
{
    let mut found: Vec<Found> = Vec::new();
    let mut path: Vec<KeyEvent> = Vec::new();
    let ghost all = walked(map.deep_view(), Seq::empty(), never@);
    proof {
        assert(all_found(found@) + all =~= all);
    }
    walk(map, &mut path, never, &mut found);
    let mut by: ByAction = ByAction { actions: Vec::new() };
    let mut n: usize = 0;
    while n < found.len()
        invariant
            n <= found@.len(),
            all == all_found(found@),
            forall|runs: RunsView| #[trigger] by.keys(runs) == keys_for(all, n as nat, runs),
        decreases found@.len() - n,
    {
        let one: &Found = &found[n];
        let ghost here = one.1.deep_view();
        let ghost was = by;
        proof {
            assert(all[n as int] == found_view(*one));
        }
        let at: usize = by.position(&one.1);
        let keys: Vec<KeyEvent> = copy_keys(one.0.as_slice());
        proof {
            lemma_action_keys(was.actions@, 0, at as int, here);
        }
        if at < by.actions.len() {
            let (runs, mut lists) = by.actions.remove(at);
            let ghost before = lists@;
            lists.push(keys);
            by.actions.insert(at, (runs, lists));
            proof {
                assert(key_lists(lists@) =~= key_lists(before).push(keys@));
                assert(by.actions@ =~= was.actions@.update(at as int, (runs, lists)));
            }
        } else {
            let mut lists: Vec<Vec<KeyEvent>> = Vec::new();
            lists.push(keys);
            proof {
                assert(key_lists(lists@) =~= Seq::empty().push(keys@));
            }
            by.actions.push((one.1.copy(), lists));
        }
        proof {
            lemma_action_keys(by.actions@, 0, at as int, here);
            assert forall|runs: RunsView| #[trigger]
                by.keys(runs) == keys_for(all, (n + 1) as nat, runs) by {
                assert(was.keys(runs) == keys_for(all, n as nat, runs));
                if runs != here {
                    lemma_other_action(was.actions@, by.actions@, 0, here, runs);
                }
            }
        }
        n = n + 1;
    }
    by
}

// ---------------------------------------------------------------------------------------
// What stands in the way
// ---------------------------------------------------------------------------------------

/// What stands in the way of giving a key to an action.
#[derive(Debug, PartialEq)]
pub enum Clash {
    /// The keys are already another action's, which would lose them.
    Taken { what: String },
    /// The keys begin other shortcuts, which taking them would end.
    Begins { count: usize, first: String },
    /// An earlier key of the sequence already runs something, so the rest is never reached.
    Buried { keys: String, what: String },
    /// The key is text: giving it away would stop it being typed.
    Text,
    /// This terminal never sends the key, so the shortcut would never fire here.
    Unreachable,
}

#[verifier::ext_equal]
pub enum ClashView {
    Taken { what: Seq<char> },
    Begins { count: usize, first: Seq<char> },
    Buried { keys: Seq<char>, what: Seq<char> },
    Text,
    Unreachable,
}

impl DeepView for Clash {
    type V = ClashView;

    open spec fn deep_view(&self) -> ClashView {
        match self {
            Clash::Taken { what } => ClashView::Taken { what: what@ },
            Clash::Begins { count, first } => ClashView::Begins { count: *count, first: first@ },
            Clash::Buried { keys, what } => ClashView::Buried { keys: keys@, what: what@ },
            Clash::Text => ClashView::Text,
            Clash::Unreachable => ClashView::Unreachable,
        }
    }
}

impl ClashView {
    /// The one line the capture box shows about it.
    pub open spec fn says(self, keys: Seq<char>) -> Seq<char> {
        match self {
            ClashView::Taken { what } => keys + " is now «"@ + what + "»."@,
            ClashView::Begins { count, first } => keys + " begins "@ + decimal(count as nat)
                + " shortcuts, «"@ + first + "» among them."@,
            ClashView::Buried { keys: earlier, what } => earlier + " already runs «"@ + what
                + "», so "@ + keys + " would never be reached."@,
            ClashView::Text => keys + " is text, and text always types."@,
            ClashView::Unreachable => "This terminal never sends "@ + keys + "."@,
        }
    }
}

impl Clash {
    /// The one line the capture box shows about it.
    pub fn says(&self, keys: &str) -> (r: String)
        ensures
            r@ == self.deep_view().says(keys@),
    {
        let mut words: Vec<char> = Vec::new();
        match self {
            Clash::Taken { what } => {
                append_str(&mut words, keys);
                append_str(&mut words, " is now «");
                append_str(&mut words, what.as_str());
                append_str(&mut words, "».");
            },
            Clash::Begins { count, first } => {
                append_str(&mut words, keys);
                append_str(&mut words, " begins ");
                write_number(&mut words, *count as u64);
                append_str(&mut words, " shortcuts, «");
                append_str(&mut words, first.as_str());
                append_str(&mut words, "» among them.");
            },
            Clash::Buried { keys: earlier, what } => {
                append_str(&mut words, earlier.as_str());
                append_str(&mut words, " already runs «");
                append_str(&mut words, what.as_str());
                append_str(&mut words, "», so ");
                append_str(&mut words, keys);
                append_str(&mut words, " would never be reached.");
            },
            Clash::Text => {
                append_str(&mut words, keys);
                append_str(&mut words, " is text, and text always types.");
            },
            Clash::Unreachable => {
                append_str(&mut words, "This terminal never sends ");
                append_str(&mut words, keys);
                append_str(&mut words, ".");
            },
        }
        proof {
            assert(words@ =~= self.deep_view().says(keys@));
        }
        string(words.as_slice())
    }

    /// Whether it stops the shortcut from being given at all.
    pub fn refuses(&self) -> (r: bool)
        ensures
            r == (self.deep_view() == ClashView::Text),
    {
        match self {
            Clash::Text => true,
            _ => false,
        }
    }
}

/// Whether the first key is one that types: giving it away would take a letter from the
/// text.
pub open spec fn takes_text(place: Where, keys: Seq<KeyEvent>) -> bool {
    &&& place.reaches(Mode::Insert)
    &&& keys.len() > 0
    &&& keys[0].code is Char
    &&& !keys[0].modifiers.control && !keys[0].modifiers.alt && !keys[0].modifiers.meta
}

pub fn types(place: Where, keys: &[KeyEvent]) -> (r: bool)
    ensures
        r == takes_text(place, keys@),
{
    if !place.holds(Mode::Insert) || keys.len() == 0 {
        return false;
    }
    let first: KeyEvent = keys[0];
    match first.code {
        KeyCode::Char(_) => !first.modifiers.control && !first.modifiers.alt
            && !first.modifiers.meta,
        _ => false,
    }
}

/// How many shortcuts hang under what a key leads to.
pub open spec fn leaf_count(trie: TrieView) -> nat
    decreases trie, 0nat,
{
    match trie {
        TrieView::Node(_, entries) => leaf_counts(entries, entries.len()),
        _ => 1,
    }
}

/// How many shortcuts hang under the first `n` entries.
pub open spec fn leaf_counts(entries: Seq<(KeyEvent, TrieView)>, n: nat) -> nat
    decreases entries, n,
{
    if n == 0 || n > entries.len() {
        0
    } else {
        leaf_counts(entries, (n - 1) as nat) + leaf_count(entries[n - 1].1)
    }
}

/// The first shortcut under what a key leads to, in words.
pub open spec fn first_words(trie: TrieView) -> Seq<char>
    decreases trie,
{
    match trie {
        TrieView::Node(_, entries) => if entries.len() == 0 {
            Seq::empty()
        } else {
            first_words(entries[0].1)
        },
        other => in_words(other),
    }
}

pub fn leaves(trie: &KeyTrie) -> (r: usize)
    ensures
        r == capped(leaf_count(trie.deep_view()) as int),
    decreases trie,
{
    match trie {
        KeyTrie::Node(node) => {
            let ghost entries = entries_view(node.entries@);
            let mut sum: usize = 0;
            let mut n: usize = 0;
            proof {
                lemma_node_view(*node);
            }
            while n < node.entries.len()
                invariant
                    n <= node.entries@.len(),
                    *trie == KeyTrie::Node(*node),
                    entries == entries_view(node.entries@),
                    sum == capped(leaf_counts(entries, n as nat) as int),
                decreases node.entries@.len() - n,
            {
                proof {
                    lemma_child(*trie, n as int);
                }
                sum = sum.saturating_add(leaves(&node.entries[n].1));
                n = n + 1;
            }
            sum
        },
        _ => 1,
    }
}

pub fn first_leaf(trie: &KeyTrie) -> (r: String)
    ensures
        r@ == first_words(trie.deep_view()),
    decreases trie,
{
    match trie {
        KeyTrie::Node(node) => {
            proof {
                lemma_node_view(*node);
            }
            if node.entries.len() == 0 {
                String::new()
            } else {
                proof {
                    lemma_child(*trie, 0);
                }
                first_leaf(&node.entries[0].1)
            }
        },
        other => describes(other),
    }
}

/// Whether something runs there, rather than more keys following.
pub open spec fn runs_something(found: Option<TrieView>) -> bool {
    match found {
        Some(TrieView::Command(_)) | Some(TrieView::Sequence(_)) => true,
        _ => false,
    }
}

/// How many of the keys, from `end` on but not all of them, already run something.
pub open spec fn buried_at(map: TrieView, keys: Seq<KeyEvent>, end: int) -> Option<int>
    decreases keys.len() - end,
{
    if end >= keys.len() {
        None
    } else if runs_something(searched(map, keys.subrange(0, end))) {
        Some(end)
    } else {
        buried_at(map, keys, end + 1)
    }
}

/// What stops the keys from being given in one mode.
pub open spec fn stopped(map: TrieView, keys: Seq<KeyEvent>) -> Option<ClashView> {
    match buried_at(map, keys, 1) {
        // A key on the way that already runs something buries everything after it.
        Some(end) => Some(
            ClashView::Buried {
                keys: path_label(keys.subrange(0, end)),
                what: in_words(searched(map, keys.subrange(0, end))->0),
            },
        ),
        None => match searched(map, keys) {
            // A key left free on purpose is free, not taken.
            Some(TrieView::Command(command)) => if command.is_no_op() {
                None
            } else {
                Some(ClashView::Taken { what: command.doc() })
            },
            Some(TrieView::Sequence(commands)) => Some(
                ClashView::Taken { what: joined(docs(commands), "; "@) },
            ),
            _ => None,
        },
    }
}

/// The shortcuts that the keys begin in one mode, where they begin any.
pub open spec fn begun(map: TrieView, keys: Seq<KeyEvent>) -> Option<ClashView> {
    match searched(map, keys) {
        Some(TrieView::Node(name, entries)) => Some(
            ClashView::Begins {
                count: capped(leaf_count(TrieView::Node(name, entries)) as int),
                first: first_words(TrieView::Node(name, entries)),
            },
        ),
        _ => None,
    }
}

/// What stands in the way in the modes from `k` on: the first thing that stops the keys,
/// else the first shortcuts they begin.
pub open spec fn clash_from(
    maps: KeymapsView,
    modes: Seq<Mode>,
    k: int,
    keys: Seq<KeyEvent>,
    begins: Option<ClashView>,
) -> Option<ClashView>
    decreases modes.len() - k,
{
    if k >= modes.len() {
        begins
    } else {
        match maps.get(modes[k]) {
            None => clash_from(maps, modes, k + 1, keys, begins),
            Some(map) => match stopped(map, keys) {
                Some(clash) => Some(clash),
                None => clash_from(
                    maps,
                    modes,
                    k + 1,
                    keys,
                    if begins is Some {
                        begins
                    } else {
                        begun(map, keys)
                    },
                ),
            },
        }
    }
}

/// Whether this terminal sends all of the keys.
pub open spec fn all_sent(keys: Seq<KeyEvent>, never: Seq<KeyEvent>) -> bool {
    forall|i: int| 0 <= i < keys.len() ==> !never.contains(#[trigger] keys[i])
}

/// What stands in the way of giving `keys` to an action, if anything does.
pub open spec fn in_the_way(
    maps: KeymapsView,
    place: Where,
    keys: Seq<KeyEvent>,
    never: Seq<KeyEvent>,
) -> Option<ClashView> {
    if keys.len() == 0 {
        None
    } else if takes_text(place, keys) {
        Some(ClashView::Text)
    } else if !all_sent(keys, never) {
        Some(ClashView::Unreachable)
    } else {
        clash_from(maps, place.spec_modes(), 0, keys, None)
    }
}

fn stop_at(map: &KeyTrie, keys: &[KeyEvent]) -> (r: Option<Clash>)
    ensures
        r.deep_view() == stopped(map.deep_view(), keys@),
{
    let mut end: usize = 1;
    while end < keys.len()
        invariant
            1 <= end,
            end <= keys@.len() || (end == 1 && keys@.len() == 0),
            buried_at(map.deep_view(), keys@, 1) == buried_at(map.deep_view(), keys@, end as int),
        decreases keys@.len() - end,
    {
        let part: &[KeyEvent] = slice_subrange(keys, 0, end);
        match map.search(part) {
            Some(KeyTrie::Node(node)) => {
                proof {
                    lemma_node_view(*node);
                }
            },
            None => {},
            Some(trie) => {
                return Some(Clash::Buried { keys: key_path(part), what: describes(trie) });
            },
        }
        end = end + 1;
    }
    match map.search(keys) {
        Some(KeyTrie::MappableCommand(command)) => {
            if command.is_no_op() {
                None
            } else {
                Some(Clash::Taken { what: command.doc().to_string() })
            }
        },
        Some(KeyTrie::Sequence(commands)) => Some(Clash::Taken { what: join_docs(commands) }),
        Some(KeyTrie::Node(node)) => {
            proof {
                lemma_node_view(*node);
            }
            None
        },
        None => None,
    }
}

fn begin_at(map: &KeyTrie, keys: &[KeyEvent]) -> (r: Option<Clash>)
    ensures
        r.deep_view() == begun(map.deep_view(), keys@),
{
    match map.search(keys) {
        Some(trie) => match trie {
            KeyTrie::Node(node) => {
                proof {
                    lemma_node_view(*node);
                }
                Some(Clash::Begins { count: leaves(trie), first: first_leaf(trie) })
            },
            _ => None,
        },
        None => None,
    }
}

/// What stands in the way of giving `keys` to an action, if anything does. `never` holds
/// the keys this terminal never sends.
pub fn clash(maps: &Keymaps, place: Where, keys: &[KeyEvent], never: &Vec<KeyEvent>) -> (r: Option<
    Clash,
>)
    ensures
        r.deep_view() == in_the_way(maps.deep_view(), place, keys@, never@),
{
    if keys.len() == 0 {
        return None;
    }
    if types(place, keys) {
        return Some(Clash::Text);
    }
    let mut n: usize = 0;
    while n < keys.len()
        invariant
            n <= keys@.len(),
            keys@.len() > 0,
            !takes_text(place, keys@),
            forall|i: int| 0 <= i < n ==> !never@.contains(#[trigger] keys@[i]),
        decreases keys@.len() - n,
    {
        if has_key(never.as_slice(), keys[n]) {
            proof {
                assert(never@.contains(keys@[n as int]));
            }
            return Some(Clash::Unreachable);
        }
        n = n + 1;
    }
    let modes: Vec<Mode> = place.modes();
    let mut begins: Option<Clash> = None;
    let mut k: usize = 0;
    while k < modes.len()
        invariant
            k <= modes@.len(),
            modes@ == place.spec_modes(),
            keys@.len() > 0,
            !takes_text(place, keys@),
            all_sent(keys@, never@),
            clash_from(maps.deep_view(), modes@, 0, keys@, None) == clash_from(
                maps.deep_view(),
                modes@,
                k as int,
                keys@,
                begins.deep_view(),
            ),
        decreases modes@.len() - k,
    {
        if let Some(map) = maps.get(modes[k]) {
            let stop: Option<Clash> = stop_at(map, keys);
            if stop.is_some() {
                return stop;
            }
            if begins.is_none() {
                begins = begin_at(map, keys);
            }
        }
        k = k + 1;
    }
    begins
}

// ---------------------------------------------------------------------------------------
// Changing a keymap
// ---------------------------------------------------------------------------------------

/// The entries with `key` leading to `trie`: where it stood, or at the end.
pub open spec fn placed(
    entries: Seq<(KeyEvent, TrieView)>,
    key: KeyEvent,
    trie: TrieView,
) -> Seq<(KeyEvent, TrieView)> {
    let at = entry_of(entries, key, 0);
    if at < entries.len() {
        entries.update(at, (key, trie))
    } else {
        entries.push((key, trie))
    }
}

/// What the keys behind `key` are put under: what it leads to where more keys follow it
/// already, else a node of its own. A key that ran a command becomes the start of a
/// sequence instead.
pub open spec fn node_under(entries: Seq<(KeyEvent, TrieView)>, key: KeyEvent) -> TrieView {
    let at = entry_of(entries, key, 0);
    if at < entries.len() && entries[at].1 is Node {
        entries[at].1
    } else {
        TrieView::Node(Seq::empty(), Seq::empty())
    }
}

/// A keymap with `keys` leading to `new`.
pub open spec fn with_set(trie: TrieView, keys: Seq<KeyEvent>, new: TrieView) -> TrieView
    decreases keys.len(),
{
    match trie {
        TrieView::Node(name, entries) => if keys.len() == 0 {
            trie
        } else if keys.len() == 1 {
            TrieView::Node(name, placed(entries, keys[0], new))
        } else {
            TrieView::Node(
                name,
                placed(
                    entries,
                    keys[0],
                    with_set(
                        node_under(entries, keys[0]),
                        keys.subrange(1, keys.len() as int),
                        new,
                    ),
                ),
            )
        },
        other => other,
    }
}

/// A keymap with what `keys` lead to dropped, if the path is there at all.
pub open spec fn without(trie: TrieView, keys: Seq<KeyEvent>) -> TrieView
    decreases keys.len(),
{
    match trie {
        TrieView::Node(name, entries) => if keys.len() == 0 {
            trie
        } else {
            let at = entry_of(entries, keys[0], 0);
            if at >= entries.len() {
                trie
            } else if keys.len() == 1 {
                TrieView::Node(name, entries.remove(at))
            } else {
                TrieView::Node(
                    name,
                    entries.update(
                        at,
                        (keys[0], without(entries[at].1, keys.subrange(1, keys.len() as int))),
                    ),
                )
            }
        },
        other => other,
    }
}

pub open spec fn map_with_set(
    map: Option<TrieView>,
    reached: bool,
    keys: Seq<KeyEvent>,
    new: TrieView,
) -> Option<TrieView> {
    match map {
        Some(trie) if reached => Some(with_set(trie, keys, new)),
        other => other,
    }
}

pub open spec fn map_without(map: Option<TrieView>, reached: bool, keys: Seq<KeyEvent>) -> Option<
    TrieView,
> {
    match map {
        Some(trie) if reached => Some(without(trie, keys)),
        other => other,
    }
}

/// The keymaps with a shortcut in every mode the place reaches.
pub open spec fn maps_with_set(
    maps: KeymapsView,
    place: Where,
    keys: Seq<KeyEvent>,
    new: TrieView,
) -> KeymapsView {
    KeymapsView {
        normal: map_with_set(maps.normal, place.reaches(Mode::Normal), keys, new),
        select: map_with_set(maps.select, place.reaches(Mode::Select), keys, new),
        insert: map_with_set(maps.insert, place.reaches(Mode::Insert), keys, new),
    }
}

/// The keymaps with a shortcut taken out of every mode the place reaches.
pub open spec fn maps_without(maps: KeymapsView, place: Where, keys: Seq<KeyEvent>) -> KeymapsView {
    KeymapsView {
        normal: map_without(maps.normal, place.reaches(Mode::Normal), keys),
        select: map_without(maps.select, place.reaches(Mode::Select), keys),
        insert: map_without(maps.insert, place.reaches(Mode::Insert), keys),
    }
}

fn set_in(trie: KeyTrie, keys: &[KeyEvent], new: &KeyTrie) -> (r: KeyTrie)
    ensures
        r.deep_view() == with_set(trie.deep_view(), keys@, new.deep_view()),
        trie is Node ==> r is Node,
    decreases keys@.len(),
{
    match trie {
        KeyTrie::Node(mut node) => {
            proof {
                lemma_node_view(node);
            }
            if keys.len() == 0 {
                return KeyTrie::Node(node);
            }
            let key: KeyEvent = keys[0];
            let at: usize = node.position(key);
            let ghost before = entries_view(node.entries@);
            let there: bool = at < node.entries.len();
            let child: KeyTrie = if keys.len() == 1 {
                if there {
                    let _ = node.entries.remove(at);
                }
                new.copy()
            } else {
                let under: KeyTrie = if there {
                    let (_, old_child) = node.entries.remove(at);
                    match old_child {
                        KeyTrie::Node(inner) => {
                            proof {
                                lemma_node_view(inner);
                            }
                            KeyTrie::Node(inner)
                        },
                        _ => KeyTrie::Node(KeyTrieNode::new()),
                    }
                } else {
                    KeyTrie::Node(KeyTrieNode::new())
                };
                proof {
                    assert(under.deep_view() == node_under(before, key));
                }
                set_in(under, slice_subrange(keys, 1, keys.len()), new)
            };
            if there {
                node.entries.insert(at, (key, child));
            } else {
                node.entries.push((key, child));
            }
            proof {
                assert(entries_view(node.entries@) =~= placed(before, key, child.deep_view()));
                lemma_node_view(node);
            }
            KeyTrie::Node(node)
        },
        other => other,
    }
}

/// Drops the key at the end of the path, if the path is there at all.
fn drop_at(trie: KeyTrie, keys: &[KeyEvent]) -> (r: KeyTrie)
    ensures
        r.deep_view() == without(trie.deep_view(), keys@),
    decreases keys@.len(),
{
    match trie {
        KeyTrie::Node(mut node) => {
            proof {
                lemma_node_view(node);
            }
            if keys.len() == 0 {
                return KeyTrie::Node(node);
            }
            let key: KeyEvent = keys[0];
            let at: usize = node.position(key);
            if at == node.entries.len() {
                return KeyTrie::Node(node);
            }
            let ghost before = entries_view(node.entries@);
            proof {
                lemma_entry_of(before, key, 0);
            }
            let (_, child) = node.entries.remove(at);
            if keys.len() > 1 {
                let child: KeyTrie = drop_at(child, slice_subrange(keys, 1, keys.len()));
                node.entries.insert(at, (key, child));
                proof {
                    assert(entries_view(node.entries@) =~= before.update(
                        at as int,
                        (key, child.deep_view()),
                    ));
                }
            } else {
                proof {
                    assert(entries_view(node.entries@) =~= before.remove(at as int));
                }
            }
            proof {
                lemma_node_view(node);
            }
            KeyTrie::Node(node)
        },
        other => other,
    }
}

fn set_mode(maps: &mut Keymaps, mode: Mode, reached: bool, keys: &[KeyEvent], new: &KeyTrie)
    ensures
        final(maps).deep_view() == old(maps).deep_view().with(
            mode,
            map_with_set(old(maps).deep_view().get(mode), reached, keys@, new.deep_view()),
        ),
{
    let map: Option<KeyTrie> = maps.take(mode);
    let map: Option<KeyTrie> = match map {
        Some(trie) => Some(
            if reached {
                set_in(trie, keys, new)
            } else {
                trie
            },
        ),
        None => None,
    };
    maps.put(mode, map);
}

fn unset_mode(maps: &mut Keymaps, mode: Mode, reached: bool, keys: &[KeyEvent])
    ensures
        final(maps).deep_view() == old(maps).deep_view().with(
            mode,
            map_without(old(maps).deep_view().get(mode), reached, keys@),
        ),
{
    let map: Option<KeyTrie> = maps.take(mode);
    let map: Option<KeyTrie> = match map {
        Some(trie) => Some(
            if reached {
                drop_at(trie, keys)
            } else {
                trie
            },
        ),
        None => None,
    };
    maps.put(mode, map);
}

/// Puts a shortcut into a keymap held in memory, so the screen shows the change at once.
pub fn set(maps: &mut Keymaps, place: Where, keys: &[KeyEvent], trie: &KeyTrie)
    ensures
        final(maps).deep_view() == maps_with_set(
            old(maps).deep_view(),
            place,
            keys@,
            trie.deep_view(),
        ),
        old(maps).deep_view().wf() && keys_once(trie.deep_view()) ==> final(maps).deep_view().wf(),
{
    proof {
        if maps.deep_view().wf() && keys_once(trie.deep_view()) {
            lemma_maps_set_once(maps.deep_view(), place, keys@, trie.deep_view());
        }
    }
    set_mode(maps, Mode::Normal, place.holds(Mode::Normal), keys, trie);
    set_mode(maps, Mode::Select, place.holds(Mode::Select), keys, trie);
    set_mode(maps, Mode::Insert, place.holds(Mode::Insert), keys, trie);
}

/// Takes a shortcut out of a keymap held in memory.
pub fn unset(maps: &mut Keymaps, place: Where, keys: &[KeyEvent])
    ensures
        final(maps).deep_view() == maps_without(old(maps).deep_view(), place, keys@),
        old(maps).deep_view().wf() ==> final(maps).deep_view().wf(),
{
    proof {
        if maps.deep_view().wf() {
            lemma_maps_without_once(maps.deep_view(), place, keys@);
        }
    }
    unset_mode(maps, Mode::Normal, place.holds(Mode::Normal), keys);
    unset_mode(maps, Mode::Select, place.holds(Mode::Select), keys);
    unset_mode(maps, Mode::Insert, place.holds(Mode::Insert), keys);
}

// ---------------------------------------------------------------------------------------
// What changing a keymap keeps
// ---------------------------------------------------------------------------------------

/// Whether `keys` begin with `part`.
pub open spec fn begins_with(keys: Seq<KeyEvent>, part: Seq<KeyEvent>) -> bool {
    part.len() <= keys.len() && keys.subrange(0, part.len() as int) == part
}

/// No key stands twice in a node on the way that `keys` take.
pub open spec fn told_apart_along(trie: TrieView, keys: Seq<KeyEvent>) -> bool
    decreases keys.len(),
{
    match trie {
        TrieView::Node(_, entries) => told_apart(entries) && (keys.len() > 0 && entry_of(
            entries,
            keys[0],
            0,
        ) < entries.len() ==> told_apart_along(
            entries[entry_of(entries, keys[0], 0)].1,
            keys.subrange(1, keys.len() as int),
        )),
        _ => true,
    }
}

proof fn lemma_entry_is(entries: Seq<(KeyEvent, TrieView)>, key: KeyEvent, i: int, at: int)
    requires
        0 <= i <= at <= entries.len(),
        at < entries.len() ==> entries[at].0 == key,
        forall|j: int| i <= j < at ==> (#[trigger] entries[j]).0 != key,
    ensures
        entry_of(entries, key, i) == at,
    decreases at - i,
{
    if i < at {
        assert(entries[i].0 != key);
        lemma_entry_is(entries, key, i + 1, at);
    }
}

/// Where keys stand once one has been placed.
proof fn lemma_placed(
    entries: Seq<(KeyEvent, TrieView)>,
    key: KeyEvent,
    trie: TrieView,
    other: KeyEvent,
)
    ensures
        ({
            let after = placed(entries, key, trie);
            let at = entry_of(after, other, 0);
            let was = entry_of(entries, other, 0);
            &&& 0 <= at <= after.len()
            &&& other == key ==> at < after.len() && after[at].1 == trie
            &&& other != key ==> (at < after.len() <==> was < entries.len())
            &&& other != key && was < entries.len() ==> after[at].1 == entries[was].1
        }),
{
    let after = placed(entries, key, trie);
    let here = entry_of(entries, key, 0);
    let was = entry_of(entries, other, 0);
    lemma_entry_of(entries, key, 0);
    lemma_entry_of(entries, other, 0);
    if other == key {
        lemma_entry_is(after, other, 0, here);
    } else if was < entries.len() {
        lemma_entry_is(after, other, 0, was);
    } else {
        lemma_entry_is(after, other, 0, after.len() as int);
    }
}

/// A shortcut just given is there at once.
pub proof fn a_shortcut_given_is_found(trie: TrieView, keys: Seq<KeyEvent>, new: TrieView)
    requires
        trie is Node,
        keys.len() > 0,
    ensures
        searched(with_set(trie, keys, new), keys) == Some(new),
    decreases keys.len(),
{
    if let TrieView::Node(name, entries) = trie {
        let rest = keys.subrange(1, keys.len() as int);
        let child = if keys.len() == 1 {
            new
        } else {
            with_set(node_under(entries, keys[0]), rest, new)
        };
        lemma_placed(entries, keys[0], child, keys[0]);
        if keys.len() == 1 {
            assert(searched(child, rest) == Some(new));
        } else {
            a_shortcut_given_is_found(node_under(entries, keys[0]), rest, new);
        }
        assert(with_set(trie, keys, new) == TrieView::Node(name, placed(entries, keys[0], child)));
    }
}

/// Giving a shortcut leaves every other one alone that neither begins with its keys nor is
/// on the way to them.
pub proof fn giving_leaves_other_keys_alone(
    trie: TrieView,
    keys: Seq<KeyEvent>,
    new: TrieView,
    other: Seq<KeyEvent>,
)
    requires
        !begins_with(keys, other),
        !begins_with(other, keys),
    ensures
        searched(with_set(trie, keys, new), other) == searched(trie, other),
    decreases keys.len(),
{
    if keys.len() > 0 && other.len() > 0 {
        if let TrieView::Node(name, entries) = trie {
            let rest = keys.subrange(1, keys.len() as int);
            let other_rest = other.subrange(1, other.len() as int);
            let under = node_under(entries, keys[0]);
            let child = if keys.len() == 1 {
                new
            } else {
                with_set(under, rest, new)
            };
            lemma_placed(entries, keys[0], child, other[0]);
            lemma_entry_of(entries, other[0], 0);
            let after = placed(entries, keys[0], child);
            assert(with_set(trie, keys, new) == TrieView::Node(name, after));
            if keys[0] == other[0] {
                lemma_behind(keys, other);
                giving_leaves_other_keys_alone(under, rest, new, other_rest);
                assert(searched(TrieView::Node(name, after), other) == searched(
                    child,
                    other_rest,
                ));
                if !(entry_of(entries, keys[0], 0) < entries.len() && entries[entry_of(
                    entries,
                    keys[0],
                    0,
                )].1 is Node) {
                    assert(searched(under, other_rest) is None);
                    assert(searched(trie, other) is None);
                } else {
                    assert(searched(trie, other) == searched(under, other_rest));
                }
            } else {
                assert(searched(TrieView::Node(name, after), other) == searched(trie, other));
            }
        }
    } else if keys.len() == 0 {
        assert(other.subrange(0, 0) =~= keys);
        assert(begins_with(other, keys));
    } else {
        assert(keys.subrange(0, 0) =~= other);
        assert(begins_with(keys, other));
    }
}

/// Keys that begin alike, and of which neither begins with the other, differ further on.
proof fn lemma_behind(keys: Seq<KeyEvent>, other: Seq<KeyEvent>)
    requires
        keys.len() > 0,
        other.len() > 0,
        keys[0] == other[0],
        !begins_with(keys, other),
        !begins_with(other, keys),
    ensures
        keys.len() > 1,
        other.len() > 1,
        !begins_with(
            keys.subrange(1, keys.len() as int),
            other.subrange(1, other.len() as int),
        ),
        !begins_with(
            other.subrange(1, other.len() as int),
            keys.subrange(1, keys.len() as int),
        ),
{
    let rest = keys.subrange(1, keys.len() as int);
    let other_rest = other.subrange(1, other.len() as int);
    assert(keys =~= seq![keys[0]] + rest);
    assert(other =~= seq![keys[0]] + other_rest);
    if keys.len() == 1 {
        assert(other.subrange(0, 1) =~= keys);
    }
    if other.len() == 1 {
        assert(keys.subrange(0, 1) =~= other);
    }
    if begins_with(rest, other_rest) {
        assert(keys.subrange(0, other.len() as int) =~= seq![keys[0]] + rest.subrange(
            0,
            other_rest.len() as int,
        ));
    }
    if begins_with(other_rest, rest) {
        assert(other.subrange(0, keys.len() as int) =~= seq![keys[0]] + other_rest.subrange(
            0,
            rest.len() as int,
        ));
    }
}

/// A shortcut taken away is gone.
pub proof fn a_shortcut_taken_away_is_gone(trie: TrieView, keys: Seq<KeyEvent>)
    requires
        trie is Node,
        keys.len() > 0,
        told_apart_along(trie, keys),
    ensures
        searched(without(trie, keys), keys) is None,
    decreases keys.len(),
{
    if let TrieView::Node(name, entries) = trie {
        let at = entry_of(entries, keys[0], 0);
        let rest = keys.subrange(1, keys.len() as int);
        lemma_entry_of(entries, keys[0], 0);
        if at < entries.len() {
            if keys.len() == 1 {
                let after = entries.remove(at);
                assert forall|j: int| 0 <= j < after.len() implies (#[trigger] after[j]).0
                    != keys[0] by {
                    let i = if j < at {
                        j
                    } else {
                        j + 1
                    };
                    assert(after[j] == entries[i]);
                    if i < at {
                        assert(entries[i].0 != entries[at].0);
                    } else {
                        assert(entries[at].0 != entries[i].0);
                    }
                }
                lemma_entry_is(after, keys[0], 0, after.len() as int);
            } else {
                let child = entries[at].1;
                let after = entries.update(at, (keys[0], without(child, rest)));
                lemma_entry_is(after, keys[0], 0, at);
                if child is Node {
                    a_shortcut_taken_away_is_gone(child, rest);
                }
            }
        }
    }
}

/// Taking a shortcut away leaves every other one alone that neither begins with its keys nor
/// is on the way to them.
pub proof fn taking_away_leaves_other_keys_alone(
    trie: TrieView,
    keys: Seq<KeyEvent>,
    other: Seq<KeyEvent>,
)
    requires
        !begins_with(keys, other),
        !begins_with(other, keys),
    ensures
        searched(without(trie, keys), other) == searched(trie, other),
    decreases keys.len(),
{
    if keys.len() == 0 {
        assert(other.subrange(0, 0) =~= keys);
    } else if other.len() == 0 {
        assert(keys.subrange(0, 0) =~= other);
    } else if let TrieView::Node(name, entries) = trie {
        let rest = keys.subrange(1, keys.len() as int);
        let other_rest = other.subrange(1, other.len() as int);
        let at = entry_of(entries, keys[0], 0);
        let was = entry_of(entries, other[0], 0);
        lemma_entry_of(entries, keys[0], 0);
        lemma_entry_of(entries, other[0], 0);
        if at < entries.len() {
            if keys[0] == other[0] {
                lemma_behind(keys, other);
                let child = entries[at].1;
                let after = entries.update(at, (keys[0], without(child, rest)));
                lemma_entry_is(after, keys[0], 0, at);
                taking_away_leaves_other_keys_alone(child, rest, other_rest);
                assert(without(trie, keys) == TrieView::Node(name, after));
            } else if keys.len() == 1 {
                let after = entries.remove(at);
                let now = if was < at {
                    was
                } else {
                    was - 1
                };
                assert forall|j: int| 0 <= j < now implies (#[trigger] after[j]).0 != other[0] by {
                    if j < at {
                        assert(after[j] == entries[j]);
                    } else {
                        assert(after[j] == entries[j + 1]);
                    }
                }
                if was < entries.len() {
                    assert(after[now] == entries[was]);
                }
                lemma_entry_is(after, other[0], 0, now);
                assert(without(trie, keys) == TrieView::Node(name, after));
            } else {
                let after = entries.update(at, (keys[0], without(entries[at].1, rest)));
                lemma_entry_is(after, other[0], 0, was);
                assert(without(trie, keys) == TrieView::Node(name, after));
            }
        }
    }
}

/// Taking away keys that lead nowhere changes nothing.
pub proof fn taking_away_nothing_changes_nothing(trie: TrieView, keys: Seq<KeyEvent>)
    requires
        searched(trie, keys) is None,
    ensures
        without(trie, keys) == trie,
    decreases keys.len(),
{
    if keys.len() > 0 {
        if let TrieView::Node(name, entries) = trie {
            let rest = keys.subrange(1, keys.len() as int);
            let at = entry_of(entries, keys[0], 0);
            lemma_entry_of(entries, keys[0], 0);
            if at < entries.len() {
                let child = entries[at].1;
                if keys.len() == 1 {
                    assert(rest.len() == 0);
                    assert(searched(child, rest) is Some);
                } else {
                    taking_away_nothing_changes_nothing(child, rest);
                    assert(entries.update(at, (keys[0], child)) =~= entries);
                }
            }
        }
    }
}

proof fn lemma_once_along(trie: TrieView, keys: Seq<KeyEvent>)
    requires
        keys_once(trie),
    ensures
        told_apart_along(trie, keys),
    decreases keys.len(),
{
    if let TrieView::Node(name, entries) = trie {
        lemma_keys_once(name, entries);
        if keys.len() > 0 {
            let at = entry_of(entries, keys[0], 0);
            lemma_entry_of(entries, keys[0], 0);
            if at < entries.len() {
                lemma_once_along(entries[at].1, keys.subrange(1, keys.len() as int));
            }
        }
    }
}

/// Once a shortcut has been taken out of every mode its place reaches it is gone there, all
/// else leads where it led, the other modes are as they were, and taking it away again changes
/// nothing.
pub proof fn taking_away_takes_only_that(
    maps: KeymapsView,
    place: Where,
    keys: Seq<KeyEvent>,
    mode: Mode,
    other: Seq<KeyEvent>,
)
    requires
        maps.wf(),
        keys.len() > 0,
    ensures
        ({
            let after = maps_without(maps, place, keys);
            &&& maps_without(after, place, keys) == after
            &&& !place.reaches(mode) ==> after.get(mode) == maps.get(mode)
            &&& place.reaches(mode) && maps.get(mode) is Some && maps.get(mode)->0 is Node ==> {
                &&& after.get(mode) is Some
                &&& searched(after.get(mode)->0, keys) is None
                &&& searched(maps.get(mode)->0, keys) is None ==> after.get(mode) == maps.get(mode)
                &&& !begins_with(keys, other) && !begins_with(other, keys) ==> searched(
                    after.get(mode)->0,
                    other,
                ) == searched(maps.get(mode)->0, other)
            }
        }),
{
    let after = maps_without(maps, place, keys);
    lemma_twice(maps.normal, place.reaches(Mode::Normal), keys);
    lemma_twice(maps.select, place.reaches(Mode::Select), keys);
    lemma_twice(maps.insert, place.reaches(Mode::Insert), keys);
    assert(maps_without(after, place, keys) == after);
    if place.reaches(mode) && maps.get(mode) is Some && maps.get(mode)->0 is Node {
        let trie = maps.get(mode)->0;
        lemma_once_along(trie, keys);
        a_shortcut_taken_away_is_gone(trie, keys);
        if searched(trie, keys) is None {
            taking_away_nothing_changes_nothing(trie, keys);
        }
        if !begins_with(keys, other) && !begins_with(other, keys) {
            taking_away_leaves_other_keys_alone(trie, keys, other);
        }
    }
}

proof fn lemma_twice(map: Option<TrieView>, reached: bool, keys: Seq<KeyEvent>)
    requires
        map matches Some(trie) ==> keys_once(trie),
        keys.len() > 0,
    ensures
        map_without(map_without(map, reached, keys), reached, keys) == map_without(
            map,
            reached,
            keys,
        ),
{
    if let Some(trie) = map {
        if reached && trie is Node {
            lemma_once_along(trie, keys);
            a_shortcut_taken_away_is_gone(trie, keys);
            taking_away_nothing_changes_nothing(without(trie, keys), keys);
        }
    }
}

/// Taking a shortcut away leaves no key twice.
proof fn lemma_without_once(trie: TrieView, keys: Seq<KeyEvent>)
    requires
        keys_once(trie),
    ensures
        keys_once(without(trie, keys)),
    decreases keys.len(),
{
    if keys.len() > 0 {
        if let TrieView::Node(name, entries) = trie {
            lemma_keys_once(name, entries);
            let at = entry_of(entries, keys[0], 0);
            lemma_entry_of(entries, keys[0], 0);
            if at < entries.len() {
                let rest = keys.subrange(1, keys.len() as int);
                let after = if keys.len() == 1 {
                    entries.remove(at)
                } else {
                    entries.update(at, (keys[0], without(entries[at].1, rest)))
                };
                lemma_without_once(entries[at].1, rest);
                assert forall|i: int, j: int| 0 <= i < j < after.len() implies (
                #[trigger] after[i]).0 != (#[trigger] after[j]).0 by {
                    let a = if keys.len() == 1 && i >= at {
                        i + 1
                    } else {
                        i
                    };
                    let b = if keys.len() == 1 && j >= at {
                        j + 1
                    } else {
                        j
                    };
                    assert(after[i].0 == entries[a].0 && after[j].0 == entries[b].0);
                }
                assert forall|i: int| 0 <= i < after.len() implies keys_once(
                    (#[trigger] after[i]).1,
                ) by {
                    if keys.len() == 1 {
                        let a = if i >= at {
                            i + 1
                        } else {
                            i
                        };
                        assert(after[i] == entries[a]);
                    } else if i != at {
                        assert(after[i] == entries[i]);
                    }
                }
                lemma_keys_once(name, after);
                assert(without(trie, keys) == TrieView::Node(name, after));
            }
        }
    }
}

/// Giving a shortcut leaves no key twice.
proof fn lemma_set_once(trie: TrieView, keys: Seq<KeyEvent>, new: TrieView)
    requires
        keys_once(trie),
        keys_once(new),
    ensures
        keys_once(with_set(trie, keys, new)),
    decreases keys.len(),
{
    if keys.len() > 0 {
        if let TrieView::Node(name, entries) = trie {
            lemma_keys_once(name, entries);
            let rest = keys.subrange(1, keys.len() as int);
            let under = node_under(entries, keys[0]);
            let at = entry_of(entries, keys[0], 0);
            lemma_entry_of(entries, keys[0], 0);
            lemma_keys_once(Seq::empty(), Seq::empty());
            assert(keys_once(under)) by {
                if at < entries.len() {
                    assert(keys_once(entries[at].1));
                }
            }
            let child = if keys.len() == 1 {
                new
            } else {
                with_set(under, rest, new)
            };
            if keys.len() > 1 {
                lemma_set_once(under, rest, new);
            }
            let after = placed(entries, keys[0], child);
            assert forall|i: int, j: int| 0 <= i < j < after.len() implies (#[trigger] after[i]).0
                != (#[trigger] after[j]).0 by {
                if j < entries.len() {
                    assert(after[i].0 == entries[i].0 && after[j].0 == entries[j].0);
                } else {
                    assert(after[i] == entries[i]);
                }
            }
            assert forall|i: int| 0 <= i < after.len() implies keys_once((#[trigger] after[i]).1) by {
                if i < entries.len() && i != at {
                    assert(after[i] == entries[i]);
                }
            }
            lemma_keys_once(name, after);
            assert(with_set(trie, keys, new) == TrieView::Node(name, after));
        }
    }
}

proof fn lemma_maps_set_once(
    maps: KeymapsView,
    place: Where,
    keys: Seq<KeyEvent>,
    new: TrieView,
)
    requires
        maps.wf(),
        keys_once(new),
    ensures
        maps_with_set(maps, place, keys, new).wf(),
{
    if let Some(trie) = maps.normal {
        lemma_set_once(trie, keys, new);
    }
    if let Some(trie) = maps.select {
        lemma_set_once(trie, keys, new);
    }
    if let Some(trie) = maps.insert {
        lemma_set_once(trie, keys, new);
    }
}

proof fn lemma_maps_without_once(maps: KeymapsView, place: Where, keys: Seq<KeyEvent>)
    requires
        maps.wf(),
    ensures
        maps_without(maps, place, keys).wf(),
{
    if let Some(trie) = maps.normal {
        lemma_without_once(trie, keys);
    }
    if let Some(trie) = maps.select {
        lemma_without_once(trie, keys);
    }
    if let Some(trie) = maps.insert {
        lemma_without_once(trie, keys);
    }
}

proof fn lemma_buried(map: TrieView, keys: Seq<KeyEvent>, end: int, at: int)
    requires
        1 <= end <= at < keys.len(),
        buried_at(map, keys, end) is None,
    ensures
        !runs_something(searched(map, keys.subrange(0, at))),
    decreases at - end,
{
    if end < at {
        lemma_buried(map, keys, end + 1, at);
    }
}

/// What keys lead to that go on behind others.
proof fn lemma_search_on(trie: TrieView, keys: Seq<KeyEvent>, n: int)
    requires
        0 <= n <= keys.len(),
    ensures
        searched(trie, keys) == (match searched(trie, keys.subrange(0, n)) {
            Some(found) => searched(found, keys.subrange(n, keys.len() as int)),
            None => None,
        }),
    decreases n,
{
    let part = keys.subrange(0, n);
    if n == 0 {
        assert(keys.subrange(0, keys.len() as int) =~= keys);
    } else {
        let rest = keys.subrange(1, keys.len() as int);
        assert(part[0] == keys[0]);
        assert(part.subrange(1, part.len() as int) =~= rest.subrange(0, n - 1));
        assert(rest.subrange(n - 1, rest.len() as int) =~= keys.subrange(n, keys.len() as int));
        if let TrieView::Node(name, entries) = trie {
            let at = entry_of(entries, keys[0], 0);
            if at < entries.len() {
                lemma_search_on(entries[at].1, rest, n - 1);
            }
        }
    }
}

proof fn lemma_free(
    maps: KeymapsView,
    modes: Seq<Mode>,
    k: int,
    keys: Seq<KeyEvent>,
    begins: Option<ClashView>,
    j: int,
)
    requires
        0 <= k <= j < modes.len(),
        clash_from(maps, modes, k, keys, begins) is None,
        maps.get(modes[j]) is Some,
    ensures
        stopped(maps.get(modes[j])->0, keys) is None,
        begun(maps.get(modes[j])->0, keys) is None,
    decreases j - k,
{
    let next = match maps.get(modes[k]) {
        None => begins,
        Some(map) => if begins is Some {
            begins
        } else {
            begun(map, keys)
        },
    };
    if next is Some {
        lemma_begins(maps, modes, k + 1, keys, next);
    }
    if k < j {
        lemma_free(maps, modes, k + 1, keys, next, j);
    }
}

proof fn lemma_begins(
    maps: KeymapsView,
    modes: Seq<Mode>,
    k: int,
    keys: Seq<KeyEvent>,
    begins: Option<ClashView>,
)
    requires
        0 <= k,
        begins is Some,
    ensures
        clash_from(maps, modes, k, keys, begins) is Some,
    decreases modes.len() - k,
{
    if k < modes.len() {
        lemma_begins(maps, modes, k + 1, keys, begins);
    }
}

/// Where nothing stands in the way, giving keys to an action costs no other shortcut its
/// own: whatever ran before in a mode the place reaches runs still, but for a key that was
/// left doing nothing.
pub proof fn free_keys_cost_nothing(
    maps: KeymapsView,
    place: Where,
    keys: Seq<KeyEvent>,
    never: Seq<KeyEvent>,
    new: TrieView,
    mode: Mode,
    other: Seq<KeyEvent>,
)
    requires
        keys.len() > 0,
        in_the_way(maps, place, keys, never) is None,
        place.reaches(mode),
        maps.get(mode) is Some,
        maps.get(mode)->0 is Node,
        other != keys,
        runs_something(searched(maps.get(mode)->0, other)),
    ensures
        searched(maps_with_set(maps, place, keys, new).get(mode)->0, other) == searched(
            maps.get(mode)->0,
            other,
        ),
{
    let map = maps.get(mode)->0;
    let modes = place.spec_modes();
    let normal = if place.reaches(Mode::Normal) {
        1int
    } else {
        0
    };
    let select = if place.reaches(Mode::Select) {
        1int
    } else {
        0
    };
    let j = match mode {
        Mode::Normal => 0,
        Mode::Select => normal,
        Mode::Insert => normal + select,
    };
    assert(modes[j] == mode);
    lemma_free(maps, modes, 0, keys, None, j);
    if begins_with(keys, other) {
        assert(other.len() < keys.len()) by {
            if other.len() == keys.len() {
                assert(keys.subrange(0, keys.len() as int) =~= keys);
            }
        }
        if other.len() > 0 {
            lemma_buried(map, keys, 1, other.len() as int);
        }
    } else if begins_with(other, keys) {
        lemma_search_on(map, other, keys.len() as int);
        assert(other.len() > keys.len()) by {
            if other.len() == keys.len() {
                assert(other.subrange(0, keys.len() as int) =~= other);
            }
        }
        assert(searched(map, keys) is Some);
    } else {
        giving_leaves_other_keys_alone(map, keys, new, other);
    }
}

// ---------------------------------------------------------------------------------------
// Shortcuts in `config.toml`
// ---------------------------------------------------------------------------------------

/// The entry `config.toml` holds for what a shortcut runs.
pub open spec fn held_for(runs: RunsView) -> Held {
    match runs {
        RunsView::One(one) => Held::Text(one),
        RunsView::Many(many) => Held::Texts(many),
    }
}

/// The names of keys.
pub open spec fn key_names(keys: Seq<KeyEvent>) -> Path {
    keys.map_values(|key: KeyEvent| key_words(key))
}

/// The path of tables a shortcut stands in: `keys`, the table of the place, and a table for
/// each key but the last.
pub open spec fn table_path(table: Seq<char>, keys: Seq<KeyEvent>) -> Path {
    seq!["keys"@, table] + key_names(keys.drop_last())
}

/// The contents with a shortcut in one table, or without it where nothing is given for it.
/// A key of yours that ran a command on its own gives way to the chord that starts with it.
pub open spec fn table_edited(
    contents: Contents,
    table: Seq<char>,
    keys: Seq<KeyEvent>,
    held: Option<Held>,
) -> Result<Contents, Seq<char>> {
    match held {
        Some(held) => with_entry(
            contents,
            table_path(table, keys),
            key_words(keys.last()),
            held,
            true,
            true,
        ),
        None => Ok(without_entry(contents, table_path(table, keys), key_words(keys.last()))),
    }
}

/// The contents with a shortcut in the tables from `k` on.
pub open spec fn tables_edited(
    contents: Contents,
    tables: Seq<Seq<char>>,
    k: int,
    keys: Seq<KeyEvent>,
    held: Option<Held>,
) -> Result<Contents, Seq<char>>
    decreases tables.len() - k,
{
    if k >= tables.len() {
        Ok(contents)
    } else {
        match table_edited(contents, tables[k], keys, held) {
            Ok(next) => tables_edited(next, tables, k + 1, keys, held),
            Err(name) => Err(name),
        }
    }
}

/// What a change of `config.toml` leaves it holding, or why it cannot be made.
pub open spec fn edited(
    text: Seq<char>,
    place: Where,
    keys: Seq<KeyEvent>,
    held: Option<Held>,
) -> Result<Contents, EditErrorView> {
    if keys.len() == 0 {
        Err(EditErrorView::NoKeys)
    } else {
        match toml_of(text) {
            Err(flaw) => Err(EditErrorView::NotToml { flaw }),
            Ok(contents) => match tables_edited(contents, place.spec_tables(), 0, keys, held) {
                Ok(after) => Ok(after),
                Err(name) => Err(EditErrorView::NoTable { name }),
            },
        }
    }
}

/// The contents with a shortcut in the first `n` tables.
pub open spec fn first_edited(
    contents: Contents,
    tables: Seq<Seq<char>>,
    n: nat,
    keys: Seq<KeyEvent>,
    held: Option<Held>,
) -> Result<Contents, Seq<char>>
    decreases n,
{
    if n == 0 {
        Ok(contents)
    } else {
        match first_edited(contents, tables, (n - 1) as nat, keys, held) {
            Ok(before) => table_edited(before, tables[n - 1], keys, held),
            Err(name) => Err(name),
        }
    }
}

/// How a file is written once a shortcut has been put into one table, or taken out of it.
pub open spec fn table_laid(
    before: Layout,
    contents: Contents,
    after: Layout,
    table: Seq<char>,
    keys: Seq<KeyEvent>,
    held: Option<Held>,
) -> bool {
    let names = table_path(table, keys);
    let last = key_words(keys.last());
    if held is Some {
        laid_with(before, contents, after, names, last, true, true)
    } else {
        after == laid_pruned(before, contents, names, last)
    }
}

/// How a file is written once a shortcut has been put into the first `n` tables, or taken out
/// of them.
pub open spec fn tables_laid(
    before: Layout,
    contents: Contents,
    after: Layout,
    tables: Seq<Seq<char>>,
    n: nat,
    keys: Seq<KeyEvent>,
    held: Option<Held>,
) -> bool
    decreases n,
{
    if n == 0 {
        after == before
    } else {
        exists|so_far: Layout|
            tables_laid(before, contents, so_far, tables, (n - 1) as nat, keys, held)
                && #[trigger] table_laid(
                so_far,
                first_edited(contents, tables, (n - 1) as nat, keys, held)->Ok_0,
                after,
                tables[n - 1],
                keys,
                held,
            )
    }
}

/// Every line of a file but those of a shortcut is left as it was, its comments and its order
/// included.
pub open spec fn leaves_the_lines(
    r: Result<String, EditError>,
    text: Seq<char>,
    place: Where,
    keys: Seq<KeyEvent>,
    held: Option<Held>,
) -> bool {
    let tables = place.spec_tables();
    let contents = toml_of(text)->Ok_0;
    r matches Ok(written) ==> exists|document: toml_edit::DocumentMut|
        #![trigger document_text(document)]
        written_as(written@, text, edited(text, place, keys, held)->Ok_0, document) && tables_laid(
            layout_of(text),
            contents,
            document_layout(document),
            tables,
            tables.len(),
            keys,
            held,
        ) && forall|other: Path|
            #![trigger contents.contains_key(other)]
            contents.contains_key(other) && apart_from_all(other, tables, tables.len(), keys)
                ==> same_line(layout_of(text), document_layout(document), other)
}

/// Whether a path neither leads to a shortcut in one of the first `n` tables, nor stands under
/// it.
pub open spec fn apart_from_all(
    other: Path,
    tables: Seq<Seq<char>>,
    n: nat,
    keys: Seq<KeyEvent>,
) -> bool {
    forall|k: int|
        0 <= k < n ==> apart(
            other,
            table_path(#[trigger] tables[k], keys).push(key_words(keys.last())),
        )
}

/// Whether a result is what becomes of a file: the text of one that holds the contents, or
/// the error.
pub open spec fn becomes(
    r: Result<String, EditError>,
    outcome: Result<Contents, EditErrorView>,
) -> bool {
    match (r, outcome) {
        (Ok(text), Ok(contents)) => writes(text@, contents),
        (Err(error), Err(flaw)) => error.deep_view() == flaw,
        _ => false,
    }
}

fn read_path(table: &str, keys: &[KeyEvent]) -> (r: Vec<String>)
    requires
        keys@.len() > 0,
    ensures
        texts(r@) == table_path(table@, keys@),
{
    let mut names: Vec<String> = Vec::new();
    names.push("keys".to_string());
    names.push(table.to_string());
    let mut n: usize = 0;
    proof {
        assert(texts(names@) =~= seq!["keys"@, table@] + key_names(keys@.drop_last()).take(0));
    }
    while n < keys.len() - 1
        invariant
            keys@.len() > 0,
            n <= keys@.len() - 1,
            names@.len() == n + 2,
            texts(names@) == seq!["keys"@, table@] + key_names(keys@.drop_last()).take(n as int),
        decreases keys@.len() - n,
    {
        let ghost before = texts(names@);
        let ghost chord = key_names(keys@.drop_last());
        names.push(key_name(keys[n]));
        proof {
            assert(chord[n as int] == key_words(keys@[n as int]));
            assert(texts(names@) =~= before.push(chord[n as int]));
            assert(chord.take(n + 1) =~= chord.take(n as int).push(chord[n as int]));
            assert(texts(names@) =~= seq!["keys"@, table@] + chord.take(n + 1));
        }
        n = n + 1;
    }
    proof {
        assert(key_names(keys@.drop_last()).take(n as int) =~= key_names(keys@.drop_last()));
    }
    names
}

/// Puts an entry under every `[keys.<table>]` the place stands for, or takes it away when
/// there is none. The file is read and written once, whatever it touches.
fn edit(text: &str, place: Where, keys: &[KeyEvent], entry: Option<Entry>) -> (r: Result<
    String,
    EditError,
>)
    ensures
        becomes(r, edited(text@, place, keys@, entry.deep_view())),
        leaves_the_lines(r, text@, place, keys@, entry.deep_view()),
{
    if keys.len() == 0 {
        return Err(EditError::NoKeys);
    }
    let mut document: toml_edit::DocumentMut = match parse_document(text) {
        Ok(document) => document,
        Err(flaw) => {
            return Err(EditError::NotToml { flaw });
        },
    };
    let last: String = key_name(keys[keys.len() - 1]);
    let tables: Vec<&'static str> = place.tables();
    let ghost start = document_contents(document);
    let ghost names = place.spec_tables();
    let ghost held = entry.deep_view();
    let mut k: usize = 0;
    while k < tables.len()
        invariant
            k <= tables@.len(),
            keys@.len() > 0,
            last@ == key_words(keys@.last()),
            names == place.spec_tables(),
            names == tables@.map_values(|table: &'static str| table@),
            held == entry.deep_view(),
            toml_of(text@) == Ok::<Contents, Seq<char>>(start),
            sound(start),
            is_table(document_contents(document)),
            document_as_read(document),
            document_tail(document) == tail_of(text@),
            first_edited(start, names, k as nat, keys@, held) == Ok::<Contents, Seq<char>>(
                document_contents(document),
            ),
            tables_laid(
                layout_of(text@),
                start,
                document_layout(document),
                names,
                k as nat,
                keys@,
                held,
            ),
            tables_edited(start, names, 0, keys@, held) == tables_edited(
                document_contents(document),
                names,
                k as int,
                keys@,
                held,
            ),
        decreases tables@.len() - k,
    {
        let table: &str = tables[k];
        let path: Vec<String> = read_path(table, keys);
        let ghost before = document_contents(document);
        let ghost laid = document_layout(document);
        proof {
            assert(names[k as int] == table@);
        }
        match &entry {
            Some(entry) => {
                let value: toml_edit::Value = value_of(entry);
                let item: &mut toml_edit::Item = root(&mut document);
                match put(item, path.as_slice(), last.as_str(), &value, true, true) {
                    Ok(()) => {
                        proof {
                            lemma_root_stays(before, texts(path@), last@, entry.deep_view());
                        }
                    },
                    Err(name) => {
                        return Err(EditError::NoTable { name });
                    },
                }
            },
            None => {
                let item: &mut toml_edit::Item = root(&mut document);
                prune(item, path.as_slice(), last.as_str());
            },
        }
        proof {
            assert(table_laid(laid, before, document_layout(document), table@, keys@, held));
            assert(tables_laid(layout_of(text@), start, laid, names, k as nat, keys@, held));
            lemma_one_table_more(
                layout_of(text@),
                start,
                laid,
                document_layout(document),
                names,
                k as nat,
                keys@,
                held,
            );
        }
        k = k + 1;
    }
    let written: String = print_document(&document);
    proof {
        assert(document_text(document) == written@);
        assert(written_as(written@, text@, document_contents(document), document));
        assert forall|other: Path|
            #![trigger start.contains_key(other)]
            start.contains_key(other) && apart_from_all(other, names, names.len(), keys@)
            implies same_line(layout_of(text@), document_layout(document), other) by {
            lemma_other_lines(
                layout_of(text@),
                start,
                document_layout(document),
                names,
                names.len(),
                keys@,
                held,
                other,
            );
        }
    }
    Ok(written)
}

/// The lines of a file that are not a shortcut's stay through all its tables.
proof fn lemma_other_lines(
    before: Layout,
    contents: Contents,
    after: Layout,
    tables: Seq<Seq<char>>,
    n: nat,
    keys: Seq<KeyEvent>,
    held: Option<Held>,
    other: Path,
)
    requires
        n <= tables.len(),
        sound(contents),
        contents.contains_key(other),
        apart_from_all(other, tables, n, keys),
        tables_laid(before, contents, after, tables, n, keys, held),
        first_edited(contents, tables, n, keys, held) is Ok,
    ensures
        same_line(before, after, other),
        first_edited(contents, tables, n, keys, held)->Ok_0.contains_key(other),
        held is Some ==> sound(first_edited(contents, tables, n, keys, held)->Ok_0),
    decreases n,
{
    if n > 0 {
        let m = (n - 1) as nat;
        let current = first_edited(contents, tables, m, keys, held)->Ok_0;
        let names = table_path(tables[m as int], keys);
        let last = key_words(keys.last());
        let so_far = choose|so_far: Layout|
            tables_laid(before, contents, so_far, tables, m, keys, held) && #[trigger] table_laid(
                so_far,
                current,
                after,
                tables[n - 1],
                keys,
                held,
            );
        lemma_other_lines(before, contents, so_far, tables, m, keys, held, other);
        assert(apart(other, names.push(last)));
        match held {
            Some(new) => {
                writing_leaves_the_other_lines(
                    so_far,
                    current,
                    after,
                    names,
                    last,
                    true,
                    true,
                    other,
                );
                writing_leaves_the_rest_alone(current, names, last, new, true, true, other);
                lemma_sound_with(current, names, last, new, true, true);
            },
            None => {
                taking_away_leaves_the_other_lines(so_far, current, names, last, other);
                taking_away_leaves_the_rest_alone(current, names, last, other);
            },
        }
    }
}

proof fn lemma_one_table_more(
    before: Layout,
    contents: Contents,
    so_far: Layout,
    after: Layout,
    tables: Seq<Seq<char>>,
    n: nat,
    keys: Seq<KeyEvent>,
    held: Option<Held>,
)
    requires
        tables_laid(before, contents, so_far, tables, n, keys, held),
        table_laid(
            so_far,
            first_edited(contents, tables, n, keys, held)->Ok_0,
            after,
            tables[n as int],
            keys,
            held,
        ),
    ensures
        tables_laid(before, contents, after, tables, n + 1, keys, held),
{
    let m = n + 1;
    assert((m - 1) as nat == n);
    assert(tables_laid(before, contents, so_far, tables, (m - 1) as nat, keys, held));
}

/// A document that an entry was written to is a table still.
proof fn lemma_root_stays(contents: Contents, names: Path, last: Seq<char>, held: Held)
    requires
        is_table(contents),
    ensures
        with_entry(contents, names, last, held, true, true) matches Ok(after) ==> is_table(after),
{
}

/// Writes one shortcut into the text of `config.toml`: it then holds what it held, but for
/// the shortcut.
pub fn write(text: &str, place: Where, keys: &[KeyEvent], runs: &Runs) -> (r: Result<
    String,
    EditError,
>)
    ensures
        becomes(r, edited(text@, place, keys@, Some(held_for(runs.deep_view())))),
        leaves_the_lines(r, text@, place, keys@, Some(held_for(runs.deep_view()))),
{
    let entry: Entry = match runs {
        Runs::One(one) => Entry::Text(one.clone()),
        Runs::Many(many) => Entry::Texts(copy_texts(many)),
    };
    edit(text, place, keys, Some(entry))
}

/// Takes a shortcut away. One that comes with the editor is written as `no_op`, which is
/// how a key is left doing nothing; one that is only yours is simply dropped.
pub fn erase(text: &str, place: Where, keys: &[KeyEvent], is_sids: bool) -> (r: Result<
    String,
    EditError,
>)
    ensures
        becomes(
            r,
            edited(
                text@,
                place,
                keys@,
                if is_sids {
                    Some(Held::Text("no_op"@))
                } else {
                    None
                },
            ),
        ),
        leaves_the_lines(
            r,
            text@,
            place,
            keys@,
            if is_sids {
                Some(Held::Text("no_op"@))
            } else {
                None
            },
        ),
{
    if is_sids {
        edit(text, place, keys, Some(Entry::Text("no_op".to_string())))
    } else {
        edit(text, place, keys, None)
    }
}

/// Gives the keys back: your line for them is dropped, whatever it said.
pub fn restore(text: &str, place: Where, keys: &[KeyEvent]) -> (r: Result<String, EditError>)
    ensures
        becomes(r, edited(text@, place, keys@, None)),
        leaves_the_lines(r, text@, place, keys@, None),
{
    edit(text, place, keys, None)
}

/// Gives every shortcut back: your whole `[keys]` is dropped, and nothing else in the file
/// is touched.
pub fn restore_all(text: &str) -> (r: Result<String, EditError>)
    ensures
        becomes(
            r,
            match toml_of(text@) {
                Ok(contents) => Ok(with_under(contents, "keys"@, nothing())),
                Err(flaw) => Err(EditErrorView::NotToml { flaw }),
            },
        ),
        r matches Ok(written) ==> exists|document: toml_edit::DocumentMut|
            #![trigger document_text(document)]
            written_as(
                written@,
                text@,
                with_under(toml_of(text@)->Ok_0, "keys"@, nothing()),
                document,
            ) && document_layout(document) == laid_without(layout_of(text@), "keys"@),
{
    let mut document: toml_edit::DocumentMut = match parse_document(text) {
        Ok(document) => document,
        Err(flaw) => {
            return Err(EditError::NotToml { flaw });
        },
    };
    let ghost contents = document_contents(document);
    let item: &mut toml_edit::Item = root(&mut document);
    remove(item, "keys");
    proof {
        lemma_under(contents, "keys"@, nothing());
    }
    let written: String = print_document(&document);
    proof {
        assert(document_text(document) == written@);
    }
    Ok(written)
}

/// Where a shortcut stands in a file.
pub open spec fn shortcut_path(table: Seq<char>, keys: Seq<KeyEvent>) -> Path {
    table_path(table, keys).push(key_words(keys.last()))
}

/// A shortcut written to one table leaves those of the others as they are.
proof fn lemma_other_tables(
    contents: Contents,
    table: Seq<char>,
    keys: Seq<KeyEvent>,
    held: Held,
    path: Path,
)
    requires
        keys.len() > 0,
        is_table(under(contents, "keys"@)),
        path.len() >= 2,
        path[0] == "keys"@,
        path[1] != table,
    ensures
        table_edited(contents, table, keys, Some(held)) matches Ok(after) ==> {
            &&& is_table(under(after, "keys"@))
            &&& after.contains_key(path) == contents.contains_key(path)
            &&& contents.contains_key(path) ==> after[path] == contents[path]
        },
{
    if let Ok(after) = table_edited(contents, table, keys, Some(held)) {
        let names = table_path(table, keys);
        let rest = names.subrange(1, names.len() as int);
        let inner = under(contents, "keys"@);
        assert(names[0] == "keys"@ && rest[0] == table && rest.len() > 0);
        assert(opened(inner, false) == inner);
        lemma_keys_table(contents, table, keys, held);
        let last = key_words(keys.last());
        let written = with_entry(inner, rest, last, held, true, false)->Ok_0;
        assert(after == with_under(contents, "keys"@, written));
        let deeper = with_entry(
            opened(under(inner, table), true),
            rest.subrange(1, rest.len() as int),
            last,
            held,
            true,
            false,
        )->Ok_0;
        assert(written == with_under(inner, table, deeper));
        let sub = path.subrange(1, path.len() as int);
        assert(sub[0] == path[1]);
        assert(seq!["keys"@] + sub =~= path);
    }
}

/// A file that a shortcut was written to has a table of keys.
proof fn lemma_keys_table(contents: Contents, table: Seq<char>, keys: Seq<KeyEvent>, held: Held)
    requires
        keys.len() > 0,
    ensures
        table_edited(contents, table, keys, Some(held)) matches Ok(after) ==> is_table(
            under(after, "keys"@),
        ),
{
    if let Ok(after) = table_edited(contents, table, keys, Some(held)) {
        let names = table_path(table, keys);
        let rest = names.subrange(1, names.len() as int);
        let last = key_words(keys.last());
        assert(names[0] == "keys"@ && rest.len() > 0);
        let inner = opened(under(contents, "keys"@), false);
        let written = with_entry(inner, rest, last, held, true, false)->Ok_0;
        assert(after == with_under(contents, "keys"@, written));
        lemma_under(contents, "keys"@, written);
        let deeper = with_entry(
            opened(under(inner, rest[0]), true),
            rest.subrange(1, rest.len() as int),
            last,
            held,
            true,
            false,
        )->Ok_0;
        assert(written == with_under(inner, rest[0], deeper));
        lemma_under(inner, rest[0], deeper);
    }
}

proof fn lemma_stays(
    contents: Contents,
    tables: Seq<Seq<char>>,
    k: int,
    keys: Seq<KeyEvent>,
    held: Held,
    path: Path,
)
    requires
        keys.len() > 0,
        0 <= k,
        is_table(under(contents, "keys"@)),
        path.len() >= 2,
        path[0] == "keys"@,
        forall|j: int| k <= j < tables.len() ==> #[trigger] tables[j] != path[1],
        contents.contains_key(path),
    ensures
        tables_edited(contents, tables, k, keys, Some(held)) matches Ok(after)
            ==> after.contains_key(path) && after[path] == contents[path],
    decreases tables.len() - k,
{
    if k < tables.len() {
        if let Ok(next) = table_edited(contents, tables[k], keys, Some(held)) {
            lemma_other_tables(contents, tables[k], keys, held, path);
            lemma_stays(next, tables, k + 1, keys, held, path);
        }
    }
}

proof fn lemma_in_each_table(
    contents: Contents,
    tables: Seq<Seq<char>>,
    k: int,
    keys: Seq<KeyEvent>,
    held: Held,
    j: int,
)
    requires
        keys.len() > 0,
        0 <= k <= j < tables.len(),
        forall|a: int, b: int|
            0 <= a < b < tables.len() ==> #[trigger] tables[a] != #[trigger] tables[b],
    ensures
        tables_edited(contents, tables, k, keys, Some(held)) matches Ok(after)
            ==> after.contains_key(shortcut_path(tables[j], keys)) && after[shortcut_path(
            tables[j],
            keys,
        )] == held,
    decreases tables.len() - k,
{
    if let Ok(next) = table_edited(contents, tables[k], keys, Some(held)) {
        if k < j {
            lemma_in_each_table(next, tables, k + 1, keys, held, j);
        } else {
            let names = table_path(tables[k], keys);
            let path = shortcut_path(tables[k], keys);
            an_entry_written_is_there(
                contents,
                names,
                key_words(keys.last()),
                held,
                true,
                true,
            );
            lemma_keys_table(contents, tables[k], keys, held);
            assert(path[0] == "keys"@ && path[1] == tables[k]);
            lemma_stays(next, tables, k + 1, keys, held, path);
        }
    }
}

/// A shortcut that was written to a file is read from it, in every table of its place.
pub proof fn a_shortcut_written_is_read(
    text: Seq<char>,
    place: Where,
    keys: Seq<KeyEvent>,
    runs: RunsView,
    written: Seq<char>,
    table: int,
)
    requires
        0 <= table < place.spec_tables().len(),
        edited(text, place, keys, Some(held_for(runs))) matches Ok(contents) && shallow(contents)
            && writes(written, contents),
    ensures
        ({
            let path = shortcut_path(place.spec_tables()[table], keys);
            toml_of(written) matches Ok(read) && read.contains_key(path) && read[path] == held_for(
                runs,
            )
        }),
{
    let tables = place.spec_tables();
    let held = held_for(runs);
    let contents = edited(text, place, keys, Some(held))->Ok_0;
    reveal_strlit("normal");
    reveal_strlit("select");
    assert("normal"@[0] == 'n' && "select"@[0] == 's');
    lemma_in_each_table(toml_of(text)->Ok_0, tables, 0, keys, held, table);
    what_was_written_is_read(written, contents, shortcut_path(tables[table], keys));
}

// ---------------------------------------------------------------------------------------
// Everything a key can run
// ---------------------------------------------------------------------------------------

/// An action, and what it does in words.
pub type Action = (Runs, String);

#[verifier::ext_equal]
pub struct ActionView {
    pub runs: RunsView,
    pub words: Seq<char>,
}

pub open spec fn action_view(action: Action) -> ActionView {
    ActionView { runs: action.0.deep_view(), words: action.1@ }
}

pub open spec fn action_views(actions: Seq<Action>) -> Seq<ActionView> {
    actions.map_values(|action: Action| action_view(action))
}

pub open spec fn static_action(command: CommandView) -> ActionView {
    ActionView { runs: RunsView::One(spelled(command)), words: command.doc() }
}

pub open spec fn typable_action(typable: (Seq<char>, Seq<char>)) -> ActionView {
    ActionView { runs: RunsView::One(":"@ + typable.0), words: typable.1 }
}

/// Flipping a setting, under the words the settings screen uses for it.
pub open spec fn setting_action(setting: SettingView) -> ActionView {
    ActionView {
        runs: RunsView::One(":toggle-option "@ + given_for(setting)),
        words: said_of(setting),
    }
}

/// Every action there is: the commands, those of the command line, and the settings.
pub open spec fn all_actions(statics: Seq<CommandView>, typables: Seq<(Seq<char>, Seq<char>)>)
    -> Seq<ActionView> {
    statics.map_values(|command: CommandView| static_action(command)) + typables.map_values(
        |typable: (Seq<char>, Seq<char>)| typable_action(typable),
    ) + all_settings().map_values(|setting: SettingView| setting_action(setting))
}

fn after_colon(before: &str, text: &str) -> (r: Runs)
    ensures
        r.deep_view() == RunsView::One(before@ + text@),
{
    let mut words: Vec<char> = chars(before);
    append_str(&mut words, text);
    Runs::One(string(words.as_slice()))
}

/// Every command the editor has, each as `config.toml` would name it, with what it does.
/// Flipping a setting is something the editor does, and so something a key can reach: it
/// is offered here under the words the settings screen uses for it.
pub fn catalogue(statics: &Vec<MappableCommand>, typables: &Vec<(String, String)>) -> (r: Vec<
    Action,
>)
    ensures
        action_views(r@) == all_actions(statics.deep_view(), typables.deep_view()),
{
    let ghost of_statics = statics.deep_view().map_values(
        |command: CommandView| static_action(command),
    );
    let ghost of_typables = typables.deep_view().map_values(
        |typable: (Seq<char>, Seq<char>)| typable_action(typable),
    );
    let ghost of_settings = all_settings().map_values(
        |setting: SettingView| setting_action(setting),
    );
    let mut all: Vec<Action> = Vec::new();
    let mut n: usize = 0;
    proof {
        assert(action_views(all@) =~= of_statics.take(0));
    }
    while n < statics.len()
        invariant
            n <= statics@.len(),
            all@.len() == n,
            of_statics == statics.deep_view().map_values(
                |command: CommandView| static_action(command),
            ),
            action_views(all@) == of_statics.take(n as int),
        decreases statics@.len() - n,
    {
        let action: Action = (Runs::of(&statics[n]), statics[n].doc().to_string());
        let ghost before = action_views(all@);
        all.push(action);
        proof {
            assert(statics.deep_view()[n as int] == statics@[n as int].deep_view());
            assert(action_views(all@) =~= before.push(action_view(action)));
            assert(action_views(all@) =~= of_statics.take(n + 1));
        }
        n = n + 1;
    }
    proof {
        assert(of_statics.take(n as int) =~= of_statics);
        assert(action_views(all@) =~= of_statics + of_typables.take(0));
    }
    let mut n: usize = 0;
    while n < typables.len()
        invariant
            n <= typables@.len(),
            of_typables == typables.deep_view().map_values(
                |typable: (Seq<char>, Seq<char>)| typable_action(typable),
            ),
            action_views(all@) == of_statics + of_typables.take(n as int),
        decreases typables@.len() - n,
    {
        let action: Action = (
            after_colon(":", typables[n].0.as_str()),
            typables[n].1.clone(),
        );
        let ghost before = action_views(all@);
        all.push(action);
        proof {
            assert(typables.deep_view()[n as int] == (
                typables@[n as int].0@,
                typables@[n as int].1@,
            ));
            assert(action_views(all@) =~= before.push(action_view(action)));
            assert(of_typables.take(n + 1) =~= of_typables.take(n as int).push(
                action_view(action),
            ));
            assert(action_views(all@) =~= of_statics + of_typables.take(n + 1));
        }
        n = n + 1;
    }
    proof {
        assert(of_typables.take(n as int) =~= of_typables);
        assert(action_views(all@) =~= of_statics + of_typables + of_settings.take(0));
    }
    let settings: Vec<(String, String, String)> = as_commands();
    let ghost commands = all_settings().map_values(|setting: SettingView| command_of(setting));
    let mut n: usize = 0;
    proof {
        assert(settings.deep_view().len() == settings@.len());
    }
    while n < settings.len()
        invariant
            n <= settings@.len(),
            commands == all_settings().map_values(|setting: SettingView| command_of(setting)),
            settings.deep_view() == commands,
            settings@.len() == all_settings().len(),
            of_settings == all_settings().map_values(
                |setting: SettingView| setting_action(setting),
            ),
            action_views(all@) == of_statics + of_typables + of_settings.take(n as int),
        decreases settings@.len() - n,
    {
        let action: Action = (
            after_colon(":toggle-option ", settings[n].0.as_str()),
            settings[n].1.clone(),
        );
        let ghost before = action_views(all@);
        all.push(action);
        proof {
            assert(settings.deep_view()[n as int] == commands[n as int]);
            assert(settings.deep_view()[n as int] == settings@[n as int].deep_view());
            assert(action_view(action) == of_settings[n as int]);
            assert(action_views(all@) =~= before.push(action_view(action)));
            assert(of_settings.take(n + 1) =~= of_settings.take(n as int).push(
                of_settings[n as int],
            ));
            assert(action_views(all@) =~= of_statics + of_typables + of_settings.take(n + 1));
        }
        n = n + 1;
    }
    proof {
        assert(of_settings.take(n as int) =~= of_settings);
    }
    all
}

} // verus!
