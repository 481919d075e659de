//! The settings a newcomer reaches for: what each is, what it is set to, and what changes
//! it.

use crate::bindings::{key_path, path_label, ByAction, Runs, RunsView};
use crate::filter::{answering, filtered, split_words, the_filter_shows_what_answers, words_of};
use crate::graphics::{capped_cell, count_letters, less, max, min, Rect};
use crate::input::{KeyCode, KeyEvent, MouseButton, MouseEvent, MouseEventKind};
use crate::keymap::Mode;
use crate::text::{append_str, chars, decimal, find, first, first_space, is_space, join, joined,
    lemma_first, lowercase_of, replace, replaced, same_str, skip_space, starts, string,
    to_lowercase, write_number};
use crate::toml_file::{an_entry_written_is_there, apart, document_contents, document_layout,
    document_text, float_text, fraction, laid_with, layout_of, lemma_written_table, parse_document,
    print_document, put, root, same_line, shallow, texts, toml_of, value_held, value_of,
    what_was_written_is_read, with_entry, writes, writing_leaves_the_other_lines, written_as,
    Contents, EditError, EditErrorView, Entry, Held, Path};
use vstd::prelude::*;
use vstd::slice::slice_subrange;

verus! {

// ---------------------------------------------------------------------------------------
// The settings
// ---------------------------------------------------------------------------------------

/// What a setting can be: a switch, or one of a few words.
#[derive(Debug)]
pub enum Kind {
    Switch,
    /// The words it cycles through, in order: what `config.toml` keeps, and what the
    /// screen reads it as when the two are not the same word.
    Words(Vec<(&'static str, &'static str)>),
}

/// One line of the screen: what it reads as, the configuration it stands for, and what
/// kind of answer it takes.
#[derive(Debug)]
pub struct Setting {
    pub label: &'static str,
    /// The key as `config.toml` writes it, dots and all.
    pub key: &'static str,
    pub kind: Kind,
    /// What somebody would type looking for it, when that is not what it is called here:
    /// searched in the command palette, never drawn. Empty where the label is enough.
    pub also: &'static str,
}

#[verifier::ext_equal]
pub enum KindView {
    Switch,
    Words(Seq<(Seq<char>, Seq<char>)>),
}

#[verifier::ext_equal]
pub struct SettingView {
    pub label: Seq<char>,
    pub key: Seq<char>,
    pub kind: KindView,
    pub also: Seq<char>,
}

impl DeepView for Kind {
    type V = KindView;

    open spec fn deep_view(&self) -> KindView {
        match self {
            Kind::Switch => KindView::Switch,
            Kind::Words(words) => KindView::Words(words.deep_view()),
        }
    }
}

impl DeepView for Setting {
    type V = SettingView;

    open spec fn deep_view(&self) -> SettingView {
        SettingView {
            label: self.label@,
            key: self.key@,
            kind: self.kind.deep_view(),
            also: self.also@,
        }
    }
}

pub open spec fn switch(label: Seq<char>, key: Seq<char>, also: Seq<char>) -> SettingView {
    SettingView { label, key, kind: KindView::Switch, also }
}

pub open spec fn words(
    label: Seq<char>,
    key: Seq<char>,
    words: Seq<(Seq<char>, Seq<char>)>,
    also: Seq<char>,
) -> SettingView {
    SettingView { label, key, kind: KindView::Words(words), also }
}

/// The settings the screen offers. Everything else stays in `config.toml`, where the whole
/// of the configuration lives. What `config.toml` calls "normal" is modal editing, and that
/// is what it is called here.
pub open spec fn all_settings() -> Seq<SettingView> {
    seq![
        words("The mode it opens in"@, "default-mode"@, seq![("insert"@, "insert"@), ("normal"@, "modal"@)], ""@),
        switch("Reopen the files a project had open"@, "restore-session"@, ""@),
        switch("Wrap long lines"@, "soft-wrap.enable"@, "word wrap wordwrap soft wrap long lines"@),
        switch("Save when you leave a file"@, "auto-save.focus-lost"@, ""@),
        switch("Save while you type"@, "auto-save.after-delay.enable"@, ""@),
        words("Line numbers"@, "line-number"@, seq![("absolute"@, "absolute"@), ("relative"@, "relative"@)], ""@),
        words("Tabs for the open files"@, "bufferline"@, seq![("multiple"@, "multiple"@), ("always"@, "always"@), ("never"@, "never"@)], ""@),
        switch("Indentation guides"@, "indent-guides.render"@, ""@),
        words("The cursor while typing"@, "cursor-shape.insert"@, seq![("bar"@, "bar"@), ("block"@, "block"@), ("underline"@, "underline"@)], ""@),
        switch("The cursor blinks"@, "cursor-blink"@, ""@),
        switch("Highlight the line the cursor is on"@, "cursorline"@, ""@),
        switch("The mode colours the status line"@, "color-modes"@, ""@),
        switch("The picker obeys .gitignore"@, "file-picker.git-ignore"@, ""@),
        switch("The file tree hides files that start with a dot"@, "file-explorer.hidden"@, ""@),
        words("The code, with the changes or the commits on screen"@, "sidebar.code"@, seq![("beside"@, "beside them"@), ("below"@, "under them"@)], "sidebar layout position top bottom right below beside horizontal vertical"@),
        words("A commit's files"@, "sidebar.commit-files"@, seq![("tree"@, "as a tree"@), ("paths"@, "as paths"@)], "commits files tree flat full path paths"@),
        switch("The mouse"@, "mouse"@, ""@),
    ]
}

impl Setting {
    fn switch(label: &'static str, key: &'static str, also: &'static str) -> (r: Setting)
        ensures
            r.deep_view() == switch(label@, key@, also@),
    {
        Setting { label, key, kind: Kind::Switch, also }
    }

    fn words(
        label: &'static str,
        key: &'static str,
        choices: Vec<(&'static str, &'static str)>,
        also: &'static str,
    ) -> (r: Setting)
        ensures
            r.deep_view() == words(label@, key@, choices.deep_view(), also@),
    {
        Setting { label, key, kind: Kind::Words(choices), also }
    }
}

/// The settings the screen offers.
pub fn settings() -> (r: Vec<Setting>)
    ensures
        r.deep_view() == all_settings(),
{
    let mut list: Vec<Setting> = Vec::new();
    let choices: Vec<(&'static str, &'static str)> = vec![("insert", "insert"), ("normal", "modal")];
    proof {
        assert(choices.deep_view() =~= seq![("insert"@, "insert"@), ("normal"@, "modal"@)]);
    }
    list.push(Setting::words("The mode it opens in", "default-mode", choices, ""));
    list.push(Setting::switch("Reopen the files a project had open", "restore-session", ""));
    list.push(Setting::switch("Wrap long lines", "soft-wrap.enable", "word wrap wordwrap soft wrap long lines"));
    list.push(Setting::switch("Save when you leave a file", "auto-save.focus-lost", ""));
    list.push(Setting::switch("Save while you type", "auto-save.after-delay.enable", ""));
    let choices: Vec<(&'static str, &'static str)> = vec![("absolute", "absolute"), ("relative", "relative")];
    proof {
        assert(choices.deep_view() =~= seq![("absolute"@, "absolute"@), ("relative"@, "relative"@)]);
    }
    list.push(Setting::words("Line numbers", "line-number", choices, ""));
    let choices: Vec<(&'static str, &'static str)> = vec![("multiple", "multiple"), ("always", "always"), ("never", "never")];
    proof {
        assert(choices.deep_view() =~= seq![("multiple"@, "multiple"@), ("always"@, "always"@), ("never"@, "never"@)]);
    }
    list.push(Setting::words("Tabs for the open files", "bufferline", choices, ""));
    list.push(Setting::switch("Indentation guides", "indent-guides.render", ""));
    let choices: Vec<(&'static str, &'static str)> = vec![("bar", "bar"), ("block", "block"), ("underline", "underline")];
    proof {
        assert(choices.deep_view() =~= seq![("bar"@, "bar"@), ("block"@, "block"@), ("underline"@, "underline"@)]);
    }
    list.push(Setting::words("The cursor while typing", "cursor-shape.insert", choices, ""));
    list.push(Setting::switch("The cursor blinks", "cursor-blink", ""));
    list.push(Setting::switch("Highlight the line the cursor is on", "cursorline", ""));
    list.push(Setting::switch("The mode colours the status line", "color-modes", ""));
    list.push(Setting::switch("The picker obeys .gitignore", "file-picker.git-ignore", ""));
    list.push(Setting::switch("The file tree hides files that start with a dot", "file-explorer.hidden", ""));
    let choices: Vec<(&'static str, &'static str)> = vec![("beside", "beside them"), ("below", "under them")];
    proof {
        assert(choices.deep_view() =~= seq![("beside"@, "beside them"@), ("below"@, "under them"@)]);
    }
    list.push(Setting::words("The code, with the changes or the commits on screen", "sidebar.code", choices, "sidebar layout position top bottom right below beside horizontal vertical"));
    let choices: Vec<(&'static str, &'static str)> = vec![("tree", "as a tree"), ("paths", "as paths")];
    proof {
        assert(choices.deep_view() =~= seq![("tree"@, "as a tree"@), ("paths"@, "as paths"@)]);
    }
    list.push(Setting::words("A commit's files", "sidebar.commit-files", choices, "commits files tree flat full path paths"));
    list.push(Setting::switch("The mouse", "mouse", ""));
    proof {
        assert(list.deep_view() =~= all_settings());
    }
    list
}

// ---------------------------------------------------------------------------------------
// Settings as commands
// ---------------------------------------------------------------------------------------

/// The setting of the list from `k` on that has a key, by number.
pub open spec fn keyed(list: Seq<SettingView>, k: int, key: Seq<char>) -> Option<int>
    decreases list.len() - k,
{
    if k >= list.len() {
        None
    } else if list[k].key == key {
        Some(k)
    } else {
        keyed(list, k + 1, key)
    }
}

/// The setting that the first word of `args` names, by number: the rest, where there is
/// any, are the values it walks.
pub open spec fn named_by(args: Seq<char>) -> Option<int> {
    if words_of(args).len() == 0 {
        None
    } else {
        keyed(all_settings(), 0, words_of(args)[0])
    }
}

/// What a setting reads as, as something the editor does.
pub open spec fn said_of(setting: SettingView) -> Seq<char> {
    match setting.kind {
        KindView::Switch => setting.label + ", on or off"@,
        KindView::Words(_) => setting.label + ", the next one"@,
    }
}

/// The words `config.toml` keeps for a setting.
pub open spec fn values(words: Seq<(Seq<char>, Seq<char>)>) -> Seq<Seq<char>> {
    words.map_values(|word: (Seq<char>, Seq<char>)| word.0)
}

/// What `:toggle-option` has to be given for a setting: its key, and for one that is a few
/// words, the words themselves, because that is how the command walks them.
pub open spec fn given_for(setting: SettingView) -> Seq<char> {
    match setting.kind {
        KindView::Switch => setting.key,
        KindView::Words(words) => setting.key + " "@ + joined(values(words), " "@),
    }
}

/// The setting `:toggle-option` was given, which is the first word of its arguments.
pub fn named(args: &str) -> (r: Option<Setting>)
    ensures
        match r {
            Some(setting) => named_by(args@) is Some && setting.deep_view()
                == all_settings()[named_by(args@)->0],
            None => named_by(args@) is None,
        },
{
    let letters: Vec<char> = chars(args);
    let words: Vec<String> = split_words(letters.as_slice());
    if words.len() == 0 {
        return None;
    }
    let key: &String = &words[0];
    proof {
        assert(words.deep_view()[0] == key@);
    }
    let mut list: Vec<Setting> = settings();
    let ghost all = all_settings();
    let mut k: usize = 0;
    while k < list.len()
        invariant
            k <= list@.len(),
            all == all_settings(),
            list.deep_view() == all,
            words_of(args@).len() > 0,
            words_of(args@)[0] == key@,
            keyed(all, 0, key@) == keyed(all, k as int, key@),
        decreases list@.len() - k,
    {
        proof {
            assert(all[k as int] == list@[k as int].deep_view());
        }
        if same_str(list[k].key, key.as_str()) {
            return Some(list.remove(k));
        }
        k = k + 1;
    }
    None
}

/// Whether `:toggle-option <key>` flips one of the settings of this screen.
pub fn is_setting(key: &str) -> (r: bool)
    ensures
        r == (named_by(key@) is Some),
{
    named(key).is_some()
}

fn said(setting: &Setting) -> (r: String)
    ensures
        r@ == said_of(setting.deep_view()),
{
    let mut words: Vec<char> = chars(setting.label);
    match setting.kind {
        Kind::Switch => append_str(&mut words, ", on or off"),
        Kind::Words(_) => append_str(&mut words, ", the next one"),
    }
    string(words.as_slice())
}

/// What `:toggle-option` has to be given for the setting.
pub fn given(setting: &Setting) -> (r: String)
    ensures
        r@ == given_for(setting.deep_view()),
{
    match &setting.kind {
        Kind::Switch => setting.key.to_string(),
        Kind::Words(words) => {
            let mut kept: Vec<String> = Vec::new();
            let mut n: usize = 0;
            while n < words.len()
                invariant
                    n <= words@.len(),
                    kept@.len() == n,
                    forall|i: int| 0 <= i < n ==> (#[trigger] kept@[i])@ == words@[i].0@,
                decreases words@.len() - n,
            {
                kept.push(words[n].0.to_string());
                n = n + 1;
            }
            proof {
                assert(kept.deep_view() =~= values(words.deep_view()));
            }
            let list: String = join(&kept, " ");
            let mut text: Vec<char> = chars(setting.key);
            append_str(&mut text, " ");
            append_str(&mut text, list.as_str());
            string(text.as_slice())
        },
    }
}

/// What a setting reads as when it is named by key: what `:toggle <key>` does, in the words
/// the settings screen uses, so a shortcut for it says something.
pub fn told(args: &str) -> (r: Option<String>)
    ensures
        r.deep_view() == (match named_by(args@) {
            Some(at) => Some(said_of(all_settings()[at])),
            None => None,
        }),
{
    match named(args) {
        Some(setting) => Some(said(&setting)),
        None => None,
    }
}

/// The other words somebody might look for a setting by, for the palette to search and
/// never show.
pub fn also(args: &str) -> (r: &'static str)
    ensures
        r@ == (match named_by(args@) {
            Some(at) => all_settings()[at].also,
            None => ""@,
        }),
{
    match named(args) {
        Some(setting) => setting.also,
        None => "",
    }
}

/// A setting as the command that flips it.
pub open spec fn command_of(setting: SettingView) -> (Seq<char>, Seq<char>, Seq<char>) {
    (given_for(setting), said_of(setting), setting.also)
}

/// Every setting as the command that flips it, for the command palette: the screen's
/// settings are things the editor does, so they are looked for and given keys like
/// anything else it does. With what `:toggle-option` is given, what it reads as, and the
/// other words it answers to.
pub fn as_commands() -> (r: Vec<(String, String, String)>)
    ensures
        r.deep_view() == all_settings().map_values(|setting: SettingView| command_of(setting)),
{
    let list: Vec<Setting> = settings();
    let ghost want = all_settings().map_values(|setting: SettingView| command_of(setting));
    let mut commands: Vec<(String, String, String)> = Vec::new();
    let mut n: usize = 0;
    while n < list.len()
        invariant
            n <= list@.len(),
            list.deep_view() == all_settings(),
            commands@.len() == n,
            forall|i: int|
                0 <= i < n ==> (#[trigger] commands@[i]).deep_view() == command_of(
                    list@[i].deep_view(),
                ),
        decreases list@.len() - n,
    {
        let setting: &Setting = &list[n];
        let command: (String, String, String) = (
            given(setting),
            said(setting),
            setting.also.to_string(),
        );
        commands.push(command);
        n = n + 1;
    }
    proof {
        assert(commands.deep_view() =~= want) by {
            assert forall|i: int| 0 <= i < want.len() implies commands.deep_view()[i]
                == want[i] by {
                assert(list.deep_view()[i] == list@[i].deep_view());
                assert(commands@[i].deep_view() == command_of(list@[i].deep_view()));
            }
        }
    }
    commands
}

/// A text with no white space in it.
pub open spec fn one_word(s: Seq<char>) -> bool {
    s.len() > 0 && forall|i: int| 0 <= i < s.len() ==> !is_space(#[trigger] s[i])
}

proof fn lemma_word_runs(s: Seq<char>, i: int, end: int)
    requires
        0 <= i <= end <= s.len(),
        forall|k: int| i <= k < end ==> !is_space(#[trigger] s[k]),
        end < s.len() ==> is_space(s[end]),
    ensures
        first_space(s, i) == end,
    decreases end - i,
{
    if i < end {
        assert(!is_space(s[i]));
        lemma_word_runs(s, i + 1, end);
    }
}

/// The first word of a text that begins with one.
proof fn lemma_first_word(word: Seq<char>, rest: Seq<char>)
    requires
        one_word(word),
        rest.len() > 0 ==> is_space(rest[0]),
    ensures
        words_of(word + rest).len() > 0,
        words_of(word + rest)[0] == word,
{
    let s = word + rest;
    assert(s[0] == word[0]);
    assert(skip_space(s, 0) == 0);
    assert forall|k: int| 0 <= k < word.len() implies !is_space(#[trigger] s[k]) by {
        assert(s[k] == word[k]);
    }
    lemma_word_runs(s, 0, word.len() as int);
    assert(s.subrange(0, word.len() as int) =~= word);
}

proof fn lemma_keyed(list: Seq<SettingView>, k: int, at: int)
    requires
        0 <= k <= at < list.len(),
        forall|i: int| k <= i < at ==> (#[trigger] list[i]).key != list[at].key,
    ensures
        keyed(list, k, list[at].key) == Some(at),
    decreases at - k,
{
    if k < at {
        assert(list[k].key != list[at].key);
        lemma_keyed(list, k + 1, at);
    }
}

/// The length of the key of a setting, and its first letter: no two are alike.
spec fn mark(i: int) -> (nat, char) {
    if i == 0 {
        (12, 'd')
    } else     if i == 1 {
        (15, 'r')
    } else     if i == 2 {
        (16, 's')
    } else     if i == 3 {
        (20, 'a')
    } else     if i == 4 {
        (28, 'a')
    } else     if i == 5 {
        (11, 'l')
    } else     if i == 6 {
        (10, 'b')
    } else     if i == 7 {
        (20, 'i')
    } else     if i == 8 {
        (19, 'c')
    } else     if i == 9 {
        (12, 'c')
    } else     if i == 10 {
        (10, 'c')
    } else     if i == 11 {
        (11, 'c')
    } else     if i == 12 {
        (22, 'f')
    } else     if i == 13 {
        (20, 'f')
    } else     if i == 14 {
        (12, 's')
    } else     if i == 15 {
        (20, 's')
    } else     if i == 16 {
        (5, 'm')
    } else {
        (0, ' ')
    }
}

proof fn lemma_marks_differ(i: int, j: int)
    requires
        0 <= i < j < 17,
    ensures
        mark(i) != mark(j),
{
}

/// The keys are words of their own, and no two settings share one.
#[verifier::rlimit(80)]
proof fn lemma_keys()
    ensures
        all_settings().len() == 17,
        forall|i: int| 0 <= i < 17 ==> one_word((#[trigger] all_settings()[i]).key),
        forall|i: int|
            0 <= i < 17 ==> ((#[trigger] all_settings()[i]).key.len(), all_settings()[i].key[0])
                == mark(i),
{
    let all = all_settings();
    reveal_strlit("default-mode");
    reveal_strlit("restore-session");
    reveal_strlit("soft-wrap.enable");
    reveal_strlit("auto-save.focus-lost");
    reveal_strlit("auto-save.after-delay.enable");
    reveal_strlit("line-number");
    reveal_strlit("bufferline");
    reveal_strlit("indent-guides.render");
    reveal_strlit("cursor-shape.insert");
    reveal_strlit("cursor-blink");
    reveal_strlit("cursorline");
    reveal_strlit("color-modes");
    reveal_strlit("file-picker.git-ignore");
    reveal_strlit("file-explorer.hidden");
    reveal_strlit("sidebar.code");
    reveal_strlit("sidebar.commit-files");
    reveal_strlit("mouse");
    assert(all[0].key.len() == 12 && all[0].key[0] == 'd');
    assert(all[1].key.len() == 15 && all[1].key[0] == 'r');
    assert(all[2].key.len() == 16 && all[2].key[0] == 's');
    assert(all[3].key.len() == 20 && all[3].key[0] == 'a');
    assert(all[4].key.len() == 28 && all[4].key[0] == 'a');
    assert(all[5].key.len() == 11 && all[5].key[0] == 'l');
    assert(all[6].key.len() == 10 && all[6].key[0] == 'b');
    assert(all[7].key.len() == 20 && all[7].key[0] == 'i');
    assert(all[8].key.len() == 19 && all[8].key[0] == 'c');
    assert(all[9].key.len() == 12 && all[9].key[0] == 'c');
    assert(all[10].key.len() == 10 && all[10].key[0] == 'c');
    assert(all[11].key.len() == 11 && all[11].key[0] == 'c');
    assert(all[12].key.len() == 22 && all[12].key[0] == 'f');
    assert(all[13].key.len() == 20 && all[13].key[0] == 'f');
    assert(all[14].key.len() == 12 && all[14].key[0] == 's');
    assert(all[15].key.len() == 20 && all[15].key[0] == 's');
    assert(all[16].key.len() == 5 && all[16].key[0] == 'm');
    assert(one_word(all[0].key));
    assert(one_word(all[1].key));
    assert(one_word(all[2].key));
    assert(one_word(all[3].key));
    assert(one_word(all[4].key));
    assert(one_word(all[5].key));
    assert(one_word(all[6].key));
    assert(one_word(all[7].key));
    assert(one_word(all[8].key));
    assert(one_word(all[9].key));
    assert(one_word(all[10].key));
    assert(one_word(all[11].key));
    assert(one_word(all[12].key));
    assert(one_word(all[13].key));
    assert(one_word(all[14].key));
    assert(one_word(all[15].key));
    assert(one_word(all[16].key));
}

/// Every setting's command names that setting, and no other.
pub proof fn a_setting_is_named_by_its_command(i: int)
    requires
        0 <= i < all_settings().len(),
    ensures
        named_by(given_for(all_settings()[i])) == Some(i),
{
    let all = all_settings();
    let setting = all[i];
    lemma_keys();
    reveal_strlit(" ");
    assert forall|k: int| 0 <= k < i implies (#[trigger] all[k]).key != setting.key by {
        lemma_marks_differ(k, i);
    }
    lemma_keyed(all, 0, i);
    match setting.kind {
        KindView::Switch => {
            lemma_first_word(setting.key, Seq::empty());
            assert(setting.key + Seq::empty() =~= setting.key);
        },
        KindView::Words(words) => {
            let rest = " "@ + joined(values(words), " "@);
            lemma_first_word(setting.key, rest);
            assert(setting.key + rest =~= given_for(setting));
        },
    }
}

// ---------------------------------------------------------------------------------------
// What a setting is set to
// ---------------------------------------------------------------------------------------

/// A value of the configuration.
#[derive(Debug, PartialEq)]
pub enum Answer {
    Switch(bool),
    Word(String),
    Number(i64),
    /// A number that is no integer, or too large for one, as JSON writes it.
    Fraction(String),
    /// Anything else, as JSON writes it: a table, a list, or null.
    Other(String),
}

#[verifier::ext_equal]
pub enum AnswerView {
    Switch(bool),
    Word(Seq<char>),
    Number(i64),
    Fraction(Seq<char>),
    Other(Seq<char>),
}

impl DeepView for Answer {
    type V = AnswerView;

    open spec fn deep_view(&self) -> AnswerView {
        match self {
            Answer::Switch(on) => AnswerView::Switch(*on),
            Answer::Word(word) => AnswerView::Word(word@),
            Answer::Number(number) => AnswerView::Number(*number),
            Answer::Fraction(text) => AnswerView::Fraction(text@),
            Answer::Other(text) => AnswerView::Other(text@),
        }
    }
}

#[verifier::external_type_specification]
#[verifier::external_body]
pub struct ExValue(serde_json::Value);

/// What a configuration holds, by JSON pointer.
pub uninterp spec fn config_values(config: serde_json::Value) -> Map<Seq<char>, AnswerView>;

/// `serde_json::Value::pointer`: what stands in a configuration at a JSON pointer.
#[verifier::external_body]
fn value_at(config: &serde_json::Value, pointer: &str) -> (r: Option<Answer>)
    ensures
        match r {
            Some(value) => config_values(*config).contains_key(pointer@)
                && config_values(*config)[pointer@] == value.deep_view(),
            None => !config_values(*config).contains_key(pointer@),
        },
{
    config.pointer(pointer).map(|value| match value {
        serde_json::Value::Bool(on) => Answer::Switch(*on),
        serde_json::Value::String(word) => Answer::Word(word.clone()),
        serde_json::Value::Number(number) =>
            number.as_i64().map_or_else(|| Answer::Fraction(number.to_string()), Answer::Number),
        other => Answer::Other(other.to_string()),
    })
}

/// Whether one JSON pointer is another, or leads below it.
pub open spec fn at_or_below(pointer: Seq<char>, other: Seq<char>) -> bool {
    pointer == other || starts(pointer, other.push('/'))
}

/// Whether what a configuration holds is what it held, but for a value put at a pointer: that
/// value there, nothing below it, and what it stands in another table or list.
pub open spec fn value_put(
    before: Map<Seq<char>, AnswerView>,
    after: Map<Seq<char>, AnswerView>,
    pointer: Seq<char>,
    value: AnswerView,
) -> bool {
    forall|at: Seq<char>|
        #![trigger after.contains_key(at)]
        #![trigger after[at]]
        if at == pointer {
            after.contains_key(at) && after[at] == value
        } else if at_or_below(at, pointer) {
            !after.contains_key(at)
        } else {
            &&& after.contains_key(at) == before.contains_key(at)
            &&& after.contains_key(at) ==> if at_or_below(pointer, at) {
                after[at] is Other
            } else {
                after[at] == before[at]
            }
        }
}

/// `serde_json::Value::pointer_mut`, and a value assigned there: where nothing stands at the
/// pointer, nothing changes. The values elsewhere stay; of a pointer with a `~` in it that is
/// left unsaid, since another one may then lead to the same value.
#[verifier::external_body]
fn set_value_at(config: &mut serde_json::Value, pointer: &str, answer: &Answer) -> (r: bool)
    requires
        answer is Switch || answer is Word || answer is Number,
    ensures
        r == config_values(*old(config)).contains_key(pointer@),
        !r ==> config_values(*final(config)) == config_values(*old(config)),
        r ==> config_values(*final(config)).contains_key(pointer@) && config_values(
            *final(config),
        )[pointer@] == answer.deep_view(),
        r && !pointer@.contains('~') ==> value_put(
            config_values(*old(config)),
            config_values(*final(config)),
            pointer@,
            answer.deep_view(),
        ),
{
    let value = match answer {
        Answer::Switch(on) => serde_json::Value::Bool(*on),
        Answer::Word(word) => serde_json::Value::String(word.clone()),
        Answer::Number(number) => serde_json::Value::from(*number),
        Answer::Fraction(_) | Answer::Other(_) => serde_json::Value::Null,
    };
    config.pointer_mut(pointer).map(|at| *at = value).is_some()
}

/// The JSON pointer of a key of `config.toml`.
pub open spec fn pointer_of(key: Seq<char>) -> Seq<char> {
    "/"@ + replaced(key, "."@, "/"@)
}

fn pointer(key: &str) -> (r: String)
    ensures
        r@ == pointer_of(key@),
{
    proof {
        reveal_strlit(".");
    }
    let letters: Vec<char> = chars(key);
    let tail: Vec<char> = replace(letters.as_slice(), ".", "/");
    let mut text: Vec<char> = chars("/");
    crate::text::append(&mut text, tail.as_slice());
    string(text.as_slice())
}

/// What a setting is set to in a configuration: JSON's null where it is not there.
pub open spec fn value_read(config: Map<Seq<char>, AnswerView>, key: Seq<char>) -> AnswerView {
    if config.contains_key(pointer_of(key)) {
        config[pointer_of(key)]
    } else {
        AnswerView::Other("null"@)
    }
}

/// What a setting is set to in a snapshot of the configuration.
pub fn read(config: &serde_json::Value, key: &str) -> (r: Answer)
    ensures
        r.deep_view() == value_read(config_values(*config), key@),
{
    let pointer: String = pointer(key);
    match value_at(config, pointer.as_str()) {
        Some(value) => value,
        None => Answer::Other("null".to_string()),
    }
}

/// Puts a new value of a setting into a configuration; the error where there is no such
/// setting.
pub fn apply(config: &mut serde_json::Value, key: &str, value: &Answer) -> (r: Result<(), String>)
    requires
        value is Switch || value is Word || value is Number,
    ensures
        r is Ok == config_values(*old(config)).contains_key(pointer_of(key@)),
        r matches Err(words) ==> words@ == "'"@ + key@ + "' is not a setting"@ && config_values(
            *final(config),
        ) == config_values(*old(config)),
        r is Ok ==> value_read(config_values(*final(config)), key@) == value.deep_view(),
        r is Ok && !pointer_of(key@).contains('~') ==> value_put(
            config_values(*old(config)),
            config_values(*final(config)),
            pointer_of(key@),
            value.deep_view(),
        ),
{
    let pointer: String = pointer(key);
    if set_value_at(config, pointer.as_str(), value) {
        Ok(())
    } else {
        let mut words: Vec<char> = chars("'");
        append_str(&mut words, key);
        append_str(&mut words, "' is not a setting");
        Err(string(words.as_slice()))
    }
}

/// The word of a list from `k` on that `config.toml` keeps as `word`, by number.
pub open spec fn word_at(words: Seq<(Seq<char>, Seq<char>)>, k: int, word: Seq<char>) -> Option<int>
    decreases words.len() - k,
{
    if k >= words.len() {
        None
    } else if words[k].0 == word {
        Some(k)
    } else {
        word_at(words, k + 1, word)
    }
}

/// What a setting is changed to: a switch flips, a word gives way to the next one. None
/// where it is set to something that is no answer of its kind.
pub open spec fn next_of(kind: KindView, current: AnswerView) -> Option<AnswerView> {
    match (kind, current) {
        (KindView::Switch, AnswerView::Switch(on)) => Some(AnswerView::Switch(!on)),
        (KindView::Words(words), AnswerView::Word(word)) => if words.len() == 0 {
            None
        } else {
            Some(
                AnswerView::Word(
                    words[match word_at(words, 0, word) {
                        Some(at) => (at + 1) % words.len() as int,
                        None => 0,
                    }].0,
                ),
            )
        },
        _ => None,
    }
}

fn find_word(words: &Vec<(&'static str, &'static str)>, word: &str) -> (r: Option<usize>)
    ensures
        match r {
            Some(at) => word_at(words.deep_view(), 0, word@) == Some(at as int) && at
                < words@.len(),
            None => word_at(words.deep_view(), 0, word@) is None,
        },
{
    let ghost all = words.deep_view();
    let mut k: usize = 0;
    while k < words.len()
        invariant
            k <= words@.len(),
            all == words.deep_view(),
            word_at(all, 0, word@) == word_at(all, k as int, word@),
        decreases words@.len() - k,
    {
        proof {
            assert(all[k as int].0 == words@[k as int].0@);
        }
        if same_str(words[k].0, word) {
            return Some(k);
        }
        k = k + 1;
    }
    None
}

/// What a setting is changed to.
pub fn next_value(setting: &Setting, current: &Answer) -> (r: Option<Answer>)
    ensures
        r.deep_view() == next_of(setting.kind.deep_view(), current.deep_view()),
{
    match (&setting.kind, current) {
        (Kind::Switch, Answer::Switch(on)) => Some(Answer::Switch(!*on)),
        (Kind::Words(words), Answer::Word(word)) => {
            if words.len() == 0 {
                return None;
            }
            let next: usize = match find_word(words, word.as_str()) {
                Some(at) => (at + 1) % words.len(),
                None => 0,
            };
            proof {
                let ghost all = words.deep_view();
                assert(all[next as int].0 == words@[next as int].0@);
            }
            Some(Answer::Word(words[next].0.to_string()))
        },
        _ => None,
    }
}

/// What is said of a setting that is set to no answer of its kind.
pub fn cannot_change(setting: &Setting) -> (r: String)
    ensures
        r@ == "'"@ + setting.key@ + "' is not a setting we can change"@,
{
    let mut words: Vec<char> = chars("'");
    append_str(&mut words, setting.key);
    append_str(&mut words, "' is not a setting we can change");
    string(words.as_slice())
}

/// The mode to be in once a setting has been changed. The mode it opens in is the one to be
/// in now as well: changing it and waiting for the next file to be opened would read as the
/// setting not working.
pub fn mode_after(key: &str, value: &Answer) -> (r: Option<Mode>)
    ensures
        r == if key@ != "default-mode"@ {
            None
        } else if value.deep_view() == AnswerView::Word("insert"@) {
            Some(Mode::Insert)
        } else {
            Some(Mode::Normal)
        },
{
    if !same_str(key, "default-mode") {
        return None;
    }
    match value {
        Answer::Word(word) => if same_str(word.as_str(), "insert") {
            Some(Mode::Insert)
        } else {
            Some(Mode::Normal)
        },
        _ => Some(Mode::Normal),
    }
}

/// How a setting's value reads on screen, which is not always the word `config.toml` keeps.
pub open spec fn reads_as(kind: KindView, value: AnswerView) -> Seq<char> {
    match value {
        AnswerView::Switch(on) => if on {
            "on"@
        } else {
            "off"@
        },
        AnswerView::Word(word) => match kind {
            KindView::Words(words) => match word_at(words, 0, word) {
                Some(at) => words[at].1,
                None => word,
            },
            KindView::Switch => word,
        },
        AnswerView::Number(number) => if number < 0 {
            "-"@ + decimal((-number) as nat)
        } else {
            decimal(number as nat)
        },
        AnswerView::Fraction(text) => text,
        AnswerView::Other(text) => text,
    }
}

pub fn shown_value(setting: &Setting, value: &Answer) -> (r: String)
    ensures
        r@ == reads_as(setting.kind.deep_view(), value.deep_view()),
{
    match value {
        Answer::Switch(on) => if *on {
            "on".to_string()
        } else {
            "off".to_string()
        },
        Answer::Word(word) => match &setting.kind {
            Kind::Words(words) => match find_word(words, word.as_str()) {
                Some(at) => {
                    proof {
                        let ghost all = words.deep_view();
                        assert(all[at as int].1 == words@[at as int].1@);
                    }
                    words[at].1.to_string()
                },
                None => word.clone(),
            },
            Kind::Switch => word.clone(),
        },
        Answer::Number(number) => {
            let mut words: Vec<char> = Vec::new();
            if *number < 0 {
                append_str(&mut words, "-");
                write_number(&mut words, (-(*number + 1)) as u64 + 1);
            } else {
                write_number(&mut words, *number as u64);
            }
            proof {
                assert(words@ =~= reads_as(setting.kind.deep_view(), value.deep_view()));
            }
            string(words.as_slice())
        },
        Answer::Fraction(text) => text.clone(),
        Answer::Other(text) => text.clone(),
    }
}

/// A word walks the list and comes back to where it was.
pub proof fn a_word_comes_round(words: Seq<(Seq<char>, Seq<char>)>, at: int)
    requires
        0 <= at < words.len(),
        forall|i: int, j: int|
            0 <= i < j < words.len() ==> (#[trigger] words[i]).0 != (#[trigger] words[j]).0,
    ensures
        next_of(KindView::Words(words), AnswerView::Word(words[at].0)) == Some(
            AnswerView::Word(words[(at + 1) % words.len() as int].0),
        ),
{
    lemma_word_at(words, 0, at);
}

proof fn lemma_word_at(words: Seq<(Seq<char>, Seq<char>)>, k: int, at: int)
    requires
        0 <= k <= at < words.len(),
        forall|i: int| k <= i < at ==> (#[trigger] words[i]).0 != words[at].0,
    ensures
        word_at(words, k, words[at].0) == Some(at),
    decreases at - k,
{
    if k < at {
        assert(words[k].0 != words[at].0);
        lemma_word_at(words, k + 1, at);
    }
}

/// A switch flipped twice is as it was.
pub proof fn a_switch_flips_back(on: bool)
    ensures
        next_of(KindView::Switch, AnswerView::Switch(on)) == Some(AnswerView::Switch(!on)),
        next_of(KindView::Switch, AnswerView::Switch(!on)) == Some(AnswerView::Switch(on)),
{
}

// ---------------------------------------------------------------------------------------
// Settings in `config.toml`
// ---------------------------------------------------------------------------------------

/// The names of a key from `i` on, which its dots part.
pub open spec fn names_from(key: Seq<char>, i: int) -> Seq<Seq<char>>
    decreases key.len() - i,
    via names_advance
{
    let dot = first(key, '.', i);
    if i < 0 || dot >= key.len() {
        seq![key.subrange(i, key.len() as int)]
    } else {
        seq![key.subrange(i, dot)] + names_from(key, dot + 1)
    }
}

#[via_fn]
proof fn names_advance(key: Seq<char>, i: int) {
    if 0 <= i <= key.len() {
        lemma_first(key, '.', i);
    }
}

/// The path of tables a setting stands in: `editor`, and a table for each name of its key
/// but the last.
pub open spec fn setting_path(key: Seq<char>) -> Path {
    seq!["editor"@] + names_from(key, 0).drop_last()
}

/// Why a setting could not be written.
#[derive(Debug, PartialEq)]
pub enum SettingError {
    Edit(EditError),
    /// The value is none that `config.toml` can hold.
    NotWritable(String),
}

#[verifier::ext_equal]
pub enum SettingErrorView {
    Edit(EditErrorView),
    NotWritable(Seq<char>),
}

impl DeepView for SettingError {
    type V = SettingErrorView;

    open spec fn deep_view(&self) -> SettingErrorView {
        match self {
            SettingError::Edit(error) => SettingErrorView::Edit(error.deep_view()),
            SettingError::NotWritable(text) => SettingErrorView::NotWritable(text@),
        }
    }
}

impl SettingErrorView {
    /// The error in words, about the file at `path`.
    pub open spec fn says(self, path: Seq<char>) -> Seq<char> {
        match self {
            SettingErrorView::Edit(error) => error.says(path),
            SettingErrorView::NotWritable(text) => text + " cannot be written to config.toml"@,
        }
    }
}

impl SettingError {
    /// The error in words, about the file at `path`.
    pub fn says(&self, path: &str) -> (r: String)
        ensures
            r@ == self.deep_view().says(path@),
    {
        match self {
            SettingError::Edit(error) => error.says(path),
            SettingError::NotWritable(text) => {
                let mut words: Vec<char> = chars(text.as_str());
                append_str(&mut words, " cannot be written to config.toml");
                string(words.as_slice())
            },
        }
    }
}

/// The entry `config.toml` holds for a value, where it can hold it.
pub open spec fn entry_of(value: AnswerView) -> Option<Held> {
    match value {
        AnswerView::Switch(on) => Some(Held::Switch(on)),
        AnswerView::Word(word) => Some(Held::Text(word)),
        AnswerView::Number(number) => Some(Held::Number(number)),
        AnswerView::Fraction(text) => match float_text(text) {
            Some(float) => Some(Held::Fraction(float)),
            None => None,
        },
        AnswerView::Other(_) => None,
    }
}

/// What `config.toml` holds once a setting has been written to it, or why it cannot be.
pub open spec fn setting_written(text: Seq<char>, key: Seq<char>, value: AnswerView) -> Result<
    Contents,
    SettingErrorView,
> {
    match toml_of(text) {
        Err(flaw) => Err(SettingErrorView::Edit(EditErrorView::NotToml { flaw })),
        Ok(contents) => {
            let held = match entry_of(value) {
                Some(held) => held,
                None => Held::Switch(false),
            };
            match with_entry(
                contents,
                setting_path(key),
                names_from(key, 0).last(),
                held,
                false,
                true,
            ) {
                Err(name) => Err(SettingErrorView::Edit(EditErrorView::NoTable { name })),
                Ok(after) => match entry_of(value) {
                    Some(_) => Ok(after),
                    None => Err(
                        SettingErrorView::NotWritable(
                            match value {
                                AnswerView::Fraction(text) => text,
                                AnswerView::Other(text) => text,
                                _ => ""@,
                            },
                        ),
                    ),
                },
            }
        },
    }
}

/// A setting that was written to a file is read from it.
pub proof fn a_setting_written_is_read(
    text: Seq<char>,
    key: Seq<char>,
    value: AnswerView,
    written: Seq<char>,
)
    requires
        setting_written(text, key, value) matches Ok(contents) && shallow(contents) && writes(
            written,
            contents,
        ),
    ensures
        ({
            let path = setting_path(key).push(names_from(key, 0).last());
            toml_of(written) matches Ok(read) && read.contains_key(path) && Some(read[path])
                == entry_of(value)
        }),
{
    let contents = setting_written(text, key, value)->Ok_0;
    let last = names_from(key, 0).last();
    an_entry_written_is_there(
        toml_of(text)->Ok_0,
        setting_path(key),
        last,
        entry_of(value)->0,
        false,
        true,
    );
    what_was_written_is_read(written, contents, setting_path(key).push(last));
}

fn split_key(key: &str) -> (r: Vec<String>)
    ensures
        r.deep_view() == names_from(key@, 0),
        r@.len() > 0,
{
    let letters: Vec<char> = chars(key);
    let ghost whole = names_from(key@, 0);
    let mut names: Vec<String> = Vec::new();
    let mut i: usize = 0;
    proof {
        assert(names.deep_view() + whole =~= whole);
    }
    loop
        invariant
            i <= letters.len(),
            letters@ == key@,
            whole == names_from(key@, 0),
            whole == names.deep_view() + names_from(key@, i as int),
        decreases letters@.len() - i,
    {
        let dot: usize = find(letters.as_slice(), '.', i);
        let name: String = string(slice_subrange(letters.as_slice(), i, dot));
        let ghost before = names.deep_view();
        names.push(name);
        proof {
            assert(names.deep_view() =~= before.push(name@));
        }
        if dot == letters.len() {
            proof {
                assert(names.deep_view() =~= before + seq![name@]);
            }
            return names;
        }
        proof {
            assert(names.deep_view() + names_from(key@, dot + 1) =~= before + names_from(
                key@,
                i as int,
            ));
        }
        i = dot + 1;
    }
}

/// Every line of a file but that of a setting is left as it was, its comments and its order
/// included.
pub open spec fn leaves_the_lines(
    r: Result<String, SettingError>,
    text: Seq<char>,
    key: Seq<char>,
    value: AnswerView,
) -> bool {
    r matches Ok(written) ==> exists|document: toml_edit::DocumentMut|
        #![trigger document_text(document)]
        written_as(written@, text, setting_written(text, key, value)->Ok_0, document) && laid_with(
            layout_of(text),
            toml_of(text)->Ok_0,
            document_layout(document),
            setting_path(key),
            names_from(key, 0).last(),
            false,
            true,
        ) && forall|other: Path|
            #![trigger toml_of(text)->Ok_0.contains_key(other)]
            toml_of(text)->Ok_0.contains_key(other) && apart(
                other,
                setting_path(key).push(names_from(key, 0).last()),
            ) ==> same_line(layout_of(text), document_layout(document), other)
}

/// Writes one setting into the text of `config.toml`: it then holds what it held, but for
/// the setting. Every setting lives under `[editor]`, and the key's dots are tables.
pub fn write_setting(text: &str, key: &str, value: &Answer) -> (r: Result<String, SettingError>)
    ensures
        match (r, setting_written(text@, key@, value.deep_view())) {
            (Ok(written), Ok(contents)) => writes(written@, contents),
            (Err(error), Err(flaw)) => error.deep_view() == flaw,
            _ => false,
        },
        leaves_the_lines(r, text@, key@, value.deep_view()),
{
    let mut document: toml_edit::DocumentMut = match parse_document(text) {
        Ok(document) => document,
        Err(flaw) => {
            return Err(SettingError::Edit(EditError::NotToml { flaw }));
        },
    };
    let ghost contents = document_contents(document);
    let entry: Option<toml_edit::Value> = match value {
        Answer::Switch(on) => Some(value_of(&Entry::Switch(*on))),
        Answer::Word(word) => Some(value_of(&Entry::Text(word.clone()))),
        Answer::Number(number) => Some(value_of(&Entry::Number(*number))),
        Answer::Fraction(number) => fraction(number.as_str()),
        Answer::Other(_) => None,
    };
    let writable: bool = entry.is_some();
    let entry: toml_edit::Value = match entry {
        Some(entry) => entry,
        None => value_of(&Entry::Switch(false)),
    };
    let mut names: Vec<String> = split_key(key);
    let ghost all = names_from(key@, 0);
    let last: String = match names.pop() {
        Some(last) => last,
        None => String::new(),
    };
    names.insert(0, "editor".to_string());
    proof {
        assert(texts(names@) =~= setting_path(key@));
        assert(last@ == all.last());
    }
    let item: &mut toml_edit::Item = root(&mut document);
    match put(item, names.as_slice(), last.as_str(), &entry, false, true) {
        Ok(()) => {},
        Err(name) => {
            return Err(SettingError::Edit(EditError::NoTable { name }));
        },
    }
    if !writable {
        return Err(
            SettingError::NotWritable(
                match value {
                    Answer::Fraction(text) => text.clone(),
                    Answer::Other(text) => text.clone(),
                    _ => "".to_string(),
                },
            ),
        );
    }
    proof {
        lemma_written_table(
            contents,
            setting_path(key@),
            all.last(),
            value_held(entry),
            false,
            true,
        );
    }
    let written: String = print_document(&document);
    proof {
        assert(document_text(document) == written@);
        assert(written_as(written@, text@, document_contents(document), document));
        assert forall|other: Path|
            #![trigger toml_of(text@)->Ok_0.contains_key(other)]
            toml_of(text@)->Ok_0.contains_key(other) && apart(
                other,
                setting_path(key@).push(all.last()),
            ) implies same_line(layout_of(text@), document_layout(document), other) by {
            writing_leaves_the_other_lines(
                layout_of(text@),
                contents,
                document_layout(document),
                setting_path(key@),
                all.last(),
                false,
                true,
                other,
            );
        }
    }
    Ok(written)
}

// ---------------------------------------------------------------------------------------
// The screen
// ---------------------------------------------------------------------------------------

/// The room around the text inside the border.
pub const PADDING: u16 = 2;

/// The columns between the longest label and its value.
pub const GAP: u16 = 4;

/// The settings a newcomer reaches for, each with what it is set to now and the keys that
/// flip it. Up and down walk them, typing narrows them, Space or Enter changes the one in
/// focus, a click changes the one it lands on, and every change is written to
/// `config.toml` as it is made.
#[derive(Debug)]
pub struct Settings {
    /// Which of the shown settings is in focus.
    pub cursor: usize,
    /// What has been typed to narrow the list.
    pub query: String,
    /// The keys that flip each setting, by the command that does it.
    pub shortcuts: ByAction,
    /// Where each shown line was drawn last, so a click can land on one.
    pub rows: Vec<Rect>,
}

/// What the filter looks for a setting by, in small letters.
pub open spec fn searched_text(setting: SettingView) -> Seq<char> {
    lowercase_of(setting.label + " "@ + setting.also + " "@ + setting.key)
}

/// The settings that the words of a query leave, as numbers in the list of all.
pub open spec fn shown_for(query: Seq<char>) -> Seq<usize> {
    answering(
        all_settings().map_values(|setting: SettingView| searched_text(setting)),
        words_of(lowercase_of(query)),
        all_settings().len(),
    )
}

/// The keys that flip a setting, as they are written on screen.
pub open spec fn keys_words(lists: Seq<Seq<KeyEvent>>) -> Seq<char> {
    joined(lists.map_values(|keys: Seq<KeyEvent>| path_label(keys)), "   "@)
}

/// What a key does to the screen beyond changing it.
#[derive(Debug, Clone, Copy, PartialEq, Eq, Structural)]
pub enum SettingsTask {
    Nothing,
    /// Change the setting in focus.
    Change,
    Close,
}

impl Settings {
    /// The screen, told which keys run what so each setting can wear its own.
    pub fn new(shortcuts: ByAction) -> (r: Settings)
        ensures
            r.cursor == 0,
            r.query@ == Seq::<char>::empty(),
            r.shortcuts == shortcuts,
            r.rows@ == Seq::<Rect>::empty(),
    {
        Settings { cursor: 0, query: String::new(), shortcuts, rows: Vec::new() }
    }

    /// The settings the filter leaves, as numbers in the list of all.
    pub fn shown(&self) -> (r: Vec<usize>)
        ensures
            r@ == shown_for(self.query@),
    {
        let list: Vec<Setting> = settings();
        let ghost want = all_settings().map_values(|setting: SettingView| searched_text(setting));
        let mut found: Vec<String> = Vec::new();
        let mut n: usize = 0;
        while n < list.len()
            invariant
                n <= list@.len(),
                list.deep_view() == all_settings(),
                found@.len() == n,
                forall|i: int|
                    0 <= i < n ==> (#[trigger] found@[i])@ == searched_text(list@[i].deep_view()),
            decreases list@.len() - n,
        {
            let mut words: Vec<char> = chars(list[n].label);
            append_str(&mut words, " ");
            append_str(&mut words, list[n].also);
            append_str(&mut words, " ");
            append_str(&mut words, list[n].key);
            let text: String = string(words.as_slice());
            found.push(to_lowercase(text.as_str()));
            n = n + 1;
        }
        proof {
            assert(found.deep_view() =~= want) by {
                assert forall|i: int| 0 <= i < want.len() implies found.deep_view()[i]
                    == want[i] by {
                    assert(list.deep_view()[i] == list@[i].deep_view());
                    assert(found@[i]@ == searched_text(list@[i].deep_view()));
                }
            }
        }
        let query: String = to_lowercase(self.query.as_str());
        filtered(query.as_str(), &found)
    }

    /// The keys that flip a setting, as the keyboard shortcuts screen writes them.
    pub fn keys_of(&self, setting: &Setting) -> (r: String)
        ensures
            r@ == keys_words(
                self.shortcuts.keys(
                    RunsView::One(":toggle-option "@ + given_for(setting.deep_view())),
                ),
            ),
    {
        let mut words: Vec<char> = chars(":toggle-option ");
        let args: String = given(setting);
        append_str(&mut words, args.as_str());
        let runs: Runs = Runs::One(string(words.as_slice()));
        let ghost lists = self.shortcuts.keys(runs.deep_view());
        let mut labels: Vec<String> = Vec::new();
        if let Some(keys) = self.shortcuts.get(&runs) {
            let mut n: usize = 0;
            while n < keys.len()
                invariant
                    n <= keys@.len(),
                    labels@.len() == n,
                    forall|i: int| 0 <= i < n ==> (#[trigger] labels@[i])@ == path_label(keys@[i]@),
                decreases keys@.len() - n,
            {
                labels.push(key_path(keys[n].as_slice()));
                n = n + 1;
            }
        }
        proof {
            assert(labels.deep_view() =~= lists.map_values(|keys: Seq<KeyEvent>| path_label(keys)));
        }
        join(&labels, "   ")
    }

    /// The focus one setting down, or up: round the end of `count` settings.
    pub open spec fn walked(self, down: bool, count: int) -> int {
        if count == 0 {
            0
        } else if down {
            (self.cursor + 1) % count
        } else if self.cursor == 0 {
            count - 1
        } else {
            self.cursor - 1
        }
    }

    fn walk(&mut self, down: bool)
        requires
            old(self).cursor < usize::MAX,
        ensures
            final(self).cursor == old(self).walked(down, shown_for(old(self).query@).len() as int),
            final(self).query == old(self).query,
            final(self).shortcuts == old(self).shortcuts,
            final(self).rows == old(self).rows,
    {
        let count: usize = self.shown().len();
        self.cursor = if count == 0 {
            0
        } else if down {
            (self.cursor + 1) % count
        } else if self.cursor == 0 {
            count - 1
        } else {
            self.cursor - 1
        };
    }

    /// The number of the setting in focus in the list of all.
    pub open spec fn focused(self) -> Option<int> {
        if self.cursor < shown_for(self.query@).len() {
            Some(shown_for(self.query@)[self.cursor as int] as int)
        } else {
            None
        }
    }

    /// The setting in focus.
    pub fn in_focus(&self) -> (r: Option<Setting>)
        ensures
            match r {
                Some(setting) => self.focused() is Some && setting.deep_view()
                    == all_settings()[self.focused()->0],
                None => self.focused() is None,
            },
    {
        let shown: Vec<usize> = self.shown();
        if self.cursor >= shown.len() {
            return None;
        }
        let mut list: Vec<Setting> = settings();
        proof {
            let all = all_settings().map_values(|setting: SettingView| searched_text(setting));
            assert(list@.len() == all_settings().len());
            the_filter_shows_what_answers(
                all,
                words_of(lowercase_of(self.query@)),
                all_settings().len(),
            );
            assert(shown@[self.cursor as int] < all_settings().len());
            assert(all_settings()[shown@[self.cursor as int] as int]
                == list@[shown@[self.cursor as int] as int].deep_view());
        }
        Some(list.remove(shown[self.cursor]))
    }

    /// What a key comes to: what is to be done, where the focus is then, and what the list is
    /// narrowed by.
    pub open spec fn keyed(self, key: KeyEvent) -> (SettingsTask, int, Seq<char>) {
        let count = shown_for(self.query@).len() as int;
        match key.code {
            KeyCode::Esc => (SettingsTask::Close, self.cursor as int, self.query@),
            KeyCode::Down | KeyCode::Tab => (
                SettingsTask::Nothing,
                self.walked(true, count),
                self.query@,
            ),
            KeyCode::Up => (SettingsTask::Nothing, self.walked(false, count), self.query@),
            KeyCode::Enter | KeyCode::Left | KeyCode::Right => (
                SettingsTask::Change,
                self.cursor as int,
                self.query@,
            ),
            KeyCode::Backspace => (
                SettingsTask::Nothing,
                0,
                if self.query@.len() > 0 {
                    self.query@.drop_last()
                } else {
                    self.query@
                },
            ),
            KeyCode::Char(c) => if c == ' ' {
                (SettingsTask::Change, self.cursor as int, self.query@)
            } else if !key.modifiers.control && !key.modifiers.alt && !key.modifiers.meta {
                (SettingsTask::Nothing, 0, self.query@.push(c))
            } else {
                (SettingsTask::Nothing, self.cursor as int, self.query@)
            },
            _ => (SettingsTask::Nothing, self.cursor as int, self.query@),
        }
    }

    /// What the mouse comes to: what is to be done, and where the focus is then.
    pub open spec fn moused(self, event: MouseEvent) -> (SettingsTask, int) {
        let at = row_under(self.rows@, 0, event.row, event.column);
        if event.kind == MouseEventKind::Down(MouseButton::Left) && at < self.rows@.len() {
            (SettingsTask::Change, at)
        } else {
            (SettingsTask::Nothing, self.cursor as int)
        }
    }

    /// What a key does: Escape closes the screen, Up and Down walk it, Space, Enter and the
    /// arrows across change the setting in focus, and typing narrows the list.
    pub fn handle_key(&mut self, key: KeyEvent) -> (r: SettingsTask)
        requires
            old(self).cursor < usize::MAX,
        ensures
            final(self).shortcuts == old(self).shortcuts,
            final(self).rows == old(self).rows,
            (r, final(self).cursor as int, final(self).query@) == old(self).keyed(key),
    {
        match key.code {
            KeyCode::Esc => SettingsTask::Close,
            KeyCode::Down | KeyCode::Tab => {
                self.walk(true);
                SettingsTask::Nothing
            },
            KeyCode::Up => {
                self.walk(false);
                SettingsTask::Nothing
            },
            KeyCode::Enter | KeyCode::Left | KeyCode::Right => SettingsTask::Change,
            KeyCode::Backspace => {
                self.query = without_last(self.query.as_str());
                self.cursor = 0;
                SettingsTask::Nothing
            },
            KeyCode::Char(c) => {
                if c == ' ' {
                    return SettingsTask::Change;
                }
                // Typing narrows the list: the words of a setting, or the key config.toml
                // knows it by.
                if !key.modifiers.control && !key.modifiers.alt && !key.modifiers.meta {
                    self.query.push(c);
                    self.cursor = 0;
                }
                SettingsTask::Nothing
            },
            _ => SettingsTask::Nothing,
        }
    }

    /// What a click does: it changes the setting it lands on.
    pub fn handle_mouse(&mut self, event: MouseEvent) -> (r: SettingsTask)
        ensures
            final(self).shortcuts == old(self).shortcuts,
            final(self).rows == old(self).rows,
            final(self).query == old(self).query,
            (r, final(self).cursor as int) == old(self).moused(event),
    {
        if event.kind != MouseEventKind::Down(MouseButton::Left) {
            return SettingsTask::Nothing;
        }
        let at: usize = find_row(&self.rows, event.row, event.column);
        if at < self.rows.len() {
            self.cursor = at;
            SettingsTask::Change
        } else {
            SettingsTask::Nothing
        }
    }
}

/// Whether a cell of the screen is on a line.
pub open spec fn on_line(line: Rect, row: u16, column: u16) -> bool {
    row == line.y && line.x <= column < line.spec_right()
}

/// The first line from `k` on that a cell of the screen is on, or the end.
pub open spec fn row_under(lines: Seq<Rect>, k: int, row: u16, column: u16) -> int
    decreases lines.len() - k,
{
    if k >= lines.len() {
        lines.len() as int
    } else if on_line(lines[k], row, column) {
        k
    } else {
        row_under(lines, k + 1, row, column)
    }
}

pub fn find_row(lines: &Vec<Rect>, row: u16, column: u16) -> (r: usize)
    ensures
        r == row_under(lines@, 0, row, column),
        r <= lines@.len(),
{
    let mut k: usize = 0;
    while k < lines.len()
        invariant
            k <= lines@.len(),
            row_under(lines@, 0, row, column) == row_under(lines@, k as int, row, column),
        decreases lines@.len() - k,
    {
        if row == lines[k].y && column >= lines[k].x && column < lines[k].right() {
            return k;
        }
        k = k + 1;
    }
    k
}

/// A text without its last character.
pub fn without_last(text: &str) -> (r: String)
    ensures
        r@ == if text@.len() > 0 {
            text@.drop_last()
        } else {
            text@
        },
{
    let letters: Vec<char> = chars(text);
    if letters.len() == 0 {
        return text.to_string();
    }
    let r: String = string(slice_subrange(letters.as_slice(), 0, letters.len() - 1));
    proof {
        assert(r@ =~= text@.drop_last());
    }
    r
}

// ---------------------------------------------------------------------------------------
// Drawing
// ---------------------------------------------------------------------------------------

/// The line at the bottom of the screen.
pub open spec fn hint() -> Seq<char> {
    "Space changes it  ·  Type to filter  ·  Esc closes"@
}

/// The most characters that one of the first `n` texts has.
pub open spec fn longest(texts: Seq<Seq<char>>, n: nat) -> nat
    decreases n,
{
    if n == 0 {
        0
    } else if texts[n - 1].len() > longest(texts, (n - 1) as nat) {
        texts[n - 1].len()
    } else {
        longest(texts, (n - 1) as nat)
    }
}

/// The columns of the screen inside its border and padding: the longest label, the keys and
/// the value, or the hint where that is longer.
pub open spec fn columns_inside(labels: u16, keys: u16, values: u16) -> int {
    max(
        capped_cell(labels + GAP + keys + GAP + values) as int,
        capped_cell(hint().len() as int) as int,
    )
}

/// Where the screen is drawn: the title, the filter, a blank row, the settings, a blank row
/// and the hint, and the border round it all.
pub open spec fn screen_area(area: Rect, labels: u16, keys: u16, values: u16) -> Rect {
    area.spec_centered(
        capped_cell(columns_inside(labels, keys, values) + PADDING * 2 + 2),
        capped_cell(all_settings().len() as int + 7),
    )
}

/// What is left inside a border for text: a column on each side of it stays free.
pub open spec fn text_area(screen: Rect) -> Rect {
    let inner = screen.spec_inside_border();
    if inner.width < 2 {
        Rect { x: 0, y: 0, width: 0, height: 0 }
    } else {
        Rect { x: capped_cell(inner.x + 1), width: (inner.width - 2) as u16, ..inner }
    }
}

/// A line of the screen: the setting on it, by its number in the list of all, where it is
/// drawn, and where its value and its keys are.
#[derive(Debug, Clone, Copy, PartialEq, Eq, Structural)]
pub struct SettingLine {
    pub setting: usize,
    pub line: Rect,
    pub focused: bool,
    pub value_x: u16,
    pub keys_x: u16,
    pub keys_room: u16,
}

/// The line of the setting shown at place `at`.
pub open spec fn line_of(
    inner: Rect,
    at: int,
    setting: usize,
    focused: bool,
    labels: u16,
    value: nat,
) -> SettingLine {
    let value_x = less(inner.spec_right() as int, capped_cell(value as int) as int);
    let keys_x = capped_cell(inner.x + labels + GAP);
    SettingLine {
        setting,
        line: Rect { x: inner.x, y: (inner.y + 3 + at) as u16, width: inner.width, height: 1 },
        focused,
        value_x: value_x as u16,
        keys_x,
        keys_room: less(value_x, capped_cell(keys_x + 1) as int) as u16,
    }
}

/// How many of the shown settings there is room for.
pub open spec fn lines_shown(inner: Rect, shown: nat) -> int {
    min(shown as int, less(inner.height as int, 3))
}

fn longest_of(texts: &Vec<String>) -> (r: u16)
    ensures
        r == capped_cell(longest(texts.deep_view(), texts@.len()) as int),
{
    let ghost all = texts.deep_view();
    let mut most: usize = 0;
    let mut n: usize = 0;
    while n < texts.len()
        invariant
            n <= texts@.len(),
            all == texts.deep_view(),
            most == longest(all, n as nat),
        decreases texts@.len() - n,
    {
        let letters: Vec<char> = chars(texts[n].as_str());
        proof {
            assert(all[n as int] == texts@[n as int]@);
        }
        if letters.len() > most {
            most = letters.len();
        }
        n = n + 1;
    }
    if most > 65535 {
        65535
    } else {
        most as u16
    }
}

/// The labels of the settings.
pub open spec fn all_labels() -> Seq<Seq<char>> {
    all_settings().map_values(|setting: SettingView| setting.label)
}

/// Whether the screen is laid out: drawn on `screen`, with `inner` inside its border, and with
/// the lines of the settings there is room for.
pub open spec fn laid_out(
    before: Settings,
    area: Rect,
    keys: Seq<Seq<char>>,
    values: Seq<Seq<char>>,
    cursor: int,
    screen: Rect,
    inner: Rect,
    lines: Seq<SettingLine>,
) -> bool {
    let labels = capped_cell(longest(all_labels(), all_labels().len()) as int);
    let shown = shown_for(before.query@);
    &&& screen == screen_area(
        area,
        labels,
        capped_cell(longest(keys, keys.len()) as int),
        capped_cell(longest(values, values.len()) as int),
    )
    &&& inner == text_area(screen)
    &&& cursor == min(before.cursor as int, less(shown.len() as int, 1))
    &&& lines.len() == lines_shown(inner, shown.len())
    &&& forall|at: int|
        0 <= at < lines.len() ==> #[trigger] lines[at] == line_of(
            inner,
            at,
            shown[at],
            at == cursor,
            labels,
            values[shown[at] as int].len(),
        )
}

impl Settings {
    /// Lays the screen out: where it is drawn, what is inside its border, and the lines of
    /// the settings there is room for. `keys` and `values` hold what is written for each
    /// setting of the list. The focus stays on a setting that is shown.
    pub fn lay_out(&mut self, area: Rect, keys: &Vec<String>, values: &Vec<String>) -> (r: (
        Rect,
        Rect,
        Vec<SettingLine>,
    ))
        requires
            area.fits(),
            keys@.len() == all_settings().len(),
            values@.len() == all_settings().len(),
        ensures
            final(self).rows@.len() == r.2@.len(),
            forall|at: int|
                0 <= at < r.2@.len() ==> #[trigger] final(self).rows@[at] == r.2@[at].line,
            laid_out(
                *old(self),
                area,
                keys.deep_view(),
                values.deep_view(),
                final(self).cursor as int,
                r.0,
                r.1,
                r.2@,
            ),
            final(self).query == old(self).query,
            final(self).shortcuts == old(self).shortcuts,
    {
        let list: Vec<Setting> = settings();
        let mut names: Vec<String> = Vec::new();
        let mut n: usize = 0;
        while n < list.len()
            invariant
                n <= list@.len(),
                list.deep_view() == all_settings(),
                names@.len() == n,
                forall|i: int|
                    0 <= i < n ==> (#[trigger] names@[i])@ == list@[i].deep_view().label,
            decreases list@.len() - n,
        {
            names.push(list[n].label.to_string());
            n = n + 1;
        }
        proof {
            assert(names.deep_view() =~= all_labels()) by {
                assert forall|i: int| 0 <= i < all_labels().len() implies names.deep_view()[i]
                    == all_labels()[i] by {
                    assert(list.deep_view()[i] == list@[i].deep_view());
                    assert(names@[i]@ == list@[i].deep_view().label);
                }
            }
        }
        let labels: u16 = longest_of(&names);
        let keys_width: u16 = longest_of(keys);
        let values_width: u16 = longest_of(values);
        let hint_width: u16 = count_letters("Space changes it  ·  Type to filter  ·  Esc closes");
        let inside: u16 = labels.saturating_add(GAP).saturating_add(keys_width).saturating_add(
            GAP,
        ).saturating_add(values_width);
        let inside: u16 = if inside > hint_width {
            inside
        } else {
            hint_width
        };
        let width: u16 = inside.saturating_add(PADDING * 2 + 2);
        let height: u16 = if list.len() > 65528 {
            65535
        } else {
            list.len() as u16 + 7
        };
        let screen: Rect = area.centered(width, height);
        let framed: Rect = screen.inside_border();
        let inner: Rect = if framed.width < 2 {
            Rect::new(0, 0, 0, 0)
        } else {
            Rect { x: framed.x.saturating_add(1), width: framed.width - 2, ..framed }
        };
        let shown: Vec<usize> = self.shown();
        if self.cursor > shown.len().saturating_sub(1) {
            self.cursor = shown.len().saturating_sub(1);
        }
        let mut lines: Vec<SettingLine> = Vec::new();
        let mut rows: Vec<Rect> = Vec::new();
        let ghost query = self.query@;
        proof {
            let all = all_settings().map_values(|setting: SettingView| searched_text(setting));
            the_filter_shows_what_answers(all, words_of(lowercase_of(query)), all_settings().len());
        }
        let mut at: usize = 0;
        while at < shown.len() && at < inner.height.saturating_sub(3) as usize
            invariant
                at <= shown@.len(),
                at <= less(inner.height as int, 3),
                inner.y + inner.height <= u16::MAX,
                shown@ == shown_for(query),
                forall|i: int| 0 <= i < shown@.len() ==> (#[trigger] shown@[i]) < values@.len(),
                lines@.len() == at,
                rows@.len() == at,
                forall|i: int|
                    0 <= i < at ==> #[trigger] lines@[i] == line_of(
                        inner,
                        i,
                        shown@[i],
                        i == self.cursor,
                        labels,
                        values.deep_view()[shown@[i] as int].len(),
                    ),
                forall|i: int| 0 <= i < at ==> #[trigger] rows@[i] == lines@[i].line,
            decreases shown@.len() - at,
        {
            let setting: usize = shown[at];
            let value: u16 = count_letters(values[setting].as_str());
            proof {
                assert(values.deep_view()[setting as int] == values@[setting as int]@);
            }
            let value_x: u16 = inner.right().saturating_sub(value);
            let keys_x: u16 = inner.x.saturating_add(labels).saturating_add(GAP);
            let line: SettingLine = SettingLine {
                setting,
                line: Rect::new(inner.x, inner.y + 3 + at as u16, inner.width, 1),
                focused: at == self.cursor,
                value_x,
                keys_x,
                keys_room: value_x.saturating_sub(keys_x.saturating_add(1)),
            };
            rows.push(line.line);
            lines.push(line);
            at = at + 1;
        }
        self.rows = rows;
        (screen, inner, lines)
    }
}

} // verus!
