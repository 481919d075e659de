//! The configuration: the user's laid over the defaults, and a workspace's over both.

use crate::keymap::{merge_keys, merged_maps, Keymaps, KeymapsView};
use crate::text::{append_str, chars, same_str, string};
use crate::toml_tree::{copy, entries_view, find_entry, got, in_tree, laying_over_keeps_both,
    lemma_place, lemma_table_view, merge, merged, names_once, place, print_toml, read_toml,
    reads_as, toml_view, tree_of, tree_text, Toml, TomlView};
use vstd::prelude::*;

verus! {

/// Why a configuration could not be loaded.
#[derive(Debug)]
pub enum ConfigLoadError {
    /// It is not one, and what is wrong with it.
    BadConfig(String),
    /// It could not be read, and why.
    Error(String),
}

impl Default for ConfigLoadError {
    fn default() -> (r: ConfigLoadError)
        ensures
            r is Error && r->Error_0@ == "place holder"@,
    {
        ConfigLoadError::Error("place holder".to_string())
    }
}

impl ConfigLoadError {
    pub fn says(&self) -> (r: &str)
        ensures
            r@ == match *self {
                ConfigLoadError::BadConfig(err) => err@,
                ConfigLoadError::Error(err) => err@,
            },
    {
        match self {
            ConfigLoadError::BadConfig(err) => err.as_str(),
            ConfigLoadError::Error(err) => err.as_str(),
        }
    }
}

/// A configuration as one file has it.
#[derive(Debug)]
pub struct ConfigRaw {
    pub theme: Option<Toml>,
    pub keys: Option<Keymaps>,
    pub editor: Option<Toml>,
}

/// A configuration. An editor of which nothing is said is as it is by default.
#[derive(Debug)]
pub struct Config {
    pub theme: Option<Toml>,
    pub keys: Keymaps,
    pub editor: Option<Toml>,
}

/// The parts of a configuration file, none of them read any further.
#[derive(Debug)]
pub struct ConfigParts {
    pub theme: Option<Toml>,
    pub keys: Option<Toml>,
    pub editor: Option<Toml>,
}

/// What is said of a file that is read as no table.
pub open spec fn no_table_words() -> Seq<char> {
    "a configuration is a table"@
}

fn no_table() -> (r: ConfigLoadError)
    ensures
        r is BadConfig && r->BadConfig_0@ == no_table_words(),
{
    ConfigLoadError::BadConfig("a configuration is a table".to_string())
}

fn has_names(tree: &Toml) -> (r: bool)
    ensures
        r == (tree is Table),
        r == (toml_view(*tree) is Table),
{
    match tree {
        Toml::Table(_) => true,
        _ => false,
    }
}

/// Whether a name is one of the parts of a configuration.
pub open spec fn is_part(name: Seq<char>) -> bool {
    name == "theme"@ || name == "keys"@ || name == "editor"@
}

/// The first name from `k` on that is no part of a configuration, by number; or the end.
pub open spec fn unknown_part(entries: Seq<(Seq<char>, TomlView)>, k: int) -> int
    decreases entries.len() - k,
{
    if k >= entries.len() {
        entries.len() as int
    } else if !is_part(entries[k].0) {
        k
    } else {
        unknown_part(entries, k + 1)
    }
}

/// What is said of a name that is no part of a configuration.
pub open spec fn unknown_words(name: Seq<char>) -> Seq<char> {
    "unknown field `"@ + name + "`, expected one of `theme`, `keys`, `editor`"@
}

/// The parts of a configuration file. What is no part of one is refused, by its name.
pub fn config_parts(tree: Toml) -> (r: Result<ConfigParts, ConfigLoadError>)
    ensures
        ({
            let entries = toml_view(tree)->Table_0;
            let k = unknown_part(entries, 0);
            if !(tree is Table) {
                r is Err && r->Err_0 is BadConfig && (r->Err_0)->BadConfig_0@ == no_table_words()
            } else if k < entries.len() {
                r is Err && r->Err_0 is BadConfig && (r->Err_0)->BadConfig_0@ == unknown_words(
                    entries[k].0,
                )
            } else {
                &&& r is Ok
                &&& view_of((r->Ok_0).theme) == got(entries, "theme"@)
                &&& view_of((r->Ok_0).keys) == got(entries, "keys"@)
                &&& view_of((r->Ok_0).editor) == got(entries, "editor"@)
            }
        }),
{
    let entries: Vec<(String, Toml)> = match tree {
        Toml::Table(entries) => entries,
        _ => {
            return Err(no_table());
        },
    };
    proof {
        lemma_table_view(entries);
    }
    let ghost all = entries_view(entries@);
    let mut k: usize = 0;
    while k < entries.len()
        invariant
            k <= entries@.len(),
            all == entries_view(entries@),
            toml_view(tree) == TomlView::Table(all),
            unknown_part(all, 0) == unknown_part(all, k as int),
        decreases entries@.len() - k,
    {
        let name: &str = entries[k].0.as_str();
        if !same_str(name, "theme") && !same_str(name, "keys") && !same_str(name, "editor") {
            let mut words: Vec<char> = chars("unknown field `");
            append_str(&mut words, name);
            append_str(&mut words, "`, expected one of `theme`, `keys`, `editor`");
            return Err(ConfigLoadError::BadConfig(string(words.as_slice())));
        }
        k = k + 1;
    }
    let whole: Option<Toml> = Some(Toml::Table(entries));
    Ok(
        ConfigParts {
            theme: copy_entry(&whole, "theme"),
            keys: copy_entry(&whole, "keys"),
            editor: copy_entry(&whole, "editor"),
        },
    )
}

/// How deep the editor's settings of one file are laid over those of another.
pub const EDITOR_DEPTH: usize = 3;

pub open spec fn view_of(toml: Option<Toml>) -> Option<TomlView> {
    match toml {
        Some(toml) => Some(toml_view(toml)),
        None => None,
    }
}

/// The keys of a file laid over others, where it has any.
pub open spec fn keys_over(keys: KeymapsView, own: Option<Keymaps>) -> KeymapsView {
    match own {
        Some(own) => merged_maps(keys, own.deep_view()),
        None => keys,
    }
}

/// The editor's settings of two files.
pub open spec fn editor_over(global: Option<TomlView>, local: Option<TomlView>) -> Option<TomlView> {
    match (global, local) {
        (Some(global), Some(local)) => Some(merged(global, local, EDITOR_DEPTH as nat)),
        (Some(global), None) => Some(global),
        (None, local) => local,
    }
}

/// The configuration two files make over keys, or why they make none.
pub open spec fn loaded(
    keys: KeymapsView,
    global: Result<ConfigRaw, ConfigLoadError>,
    local: Result<ConfigRaw, ConfigLoadError>,
    r: Result<Config, ConfigLoadError>,
) -> bool {
    match (global, local) {
        (Ok(global), Ok(local)) => {
            &&& r is Ok
            &&& view_of((r->Ok_0).theme) == match local.theme {
                Some(theme) => Some(toml_view(theme)),
                None => view_of(global.theme),
            }
            &&& (r->Ok_0).keys.deep_view() == keys_over(
                keys_over(keys, global.keys),
                local.keys,
            )
            &&& view_of((r->Ok_0).editor) == editor_over(
                view_of(global.editor),
                view_of(local.editor),
            )
        },
        (_, Err(ConfigLoadError::BadConfig(err))) => r == Err::<Config, ConfigLoadError>(
            ConfigLoadError::BadConfig(err),
        ),
        (Err(ConfigLoadError::BadConfig(err)), _) => r == Err::<Config, ConfigLoadError>(
            ConfigLoadError::BadConfig(err),
        ),
        (Ok(config), Err(_)) => r is Ok && (r->Ok_0).theme == config.theme && (
        r->Ok_0).keys.deep_view() == keys_over(keys, config.keys) && (
        r->Ok_0).editor == config.editor,
        (Err(_), Ok(config)) => r is Ok && (r->Ok_0).theme == config.theme && (
        r->Ok_0).keys.deep_view() == keys_over(keys, config.keys) && (
        r->Ok_0).editor == config.editor,
        (Err(err), Err(_)) => r == Err::<Config, ConfigLoadError>(err),
    }
}

/// The configuration that is used.
pub open spec fn settled(
    trusted: bool,
    global: Config,
    both: Result<Config, ConfigLoadError>,
    r: Result<Config, ConfigLoadError>,
) -> bool {
    if !trusted {
        r == Ok::<Config, ConfigLoadError>(global)
    } else {
        match both {
            Err(err) => r == Err::<Config, ConfigLoadError>(err),
            Ok(both) => {
                &&& r is Ok
                &&& (r->Ok_0).theme == both.theme
                &&& (r->Ok_0).keys == both.keys
                &&& view_of((r->Ok_0).editor) == pinned(
                    view_of(both.editor),
                    view_of(global.editor),
                )
            },
        }
    }
}

impl Config {
    /// The configuration where no file says anything.
    pub fn built_in(keys: Keymaps) -> (r: Config)
        ensures
            r == (Config { theme: None, keys, editor: None }),
    {
        Config { theme: None, keys, editor: None }
    }

    /// The configuration two files make, over the keys the editor has of its own: what a
    /// workspace's file says wins over the user's. A file that is no configuration is what is
    /// told first, the workspace's before the user's; one that cannot be read counts for
    /// nothing where the other can.
    pub fn load(
        keys: Keymaps,
        global: Result<ConfigRaw, ConfigLoadError>,
        local: Result<ConfigRaw, ConfigLoadError>,
    ) -> (r: Result<Config, ConfigLoadError>)
        ensures
            loaded(keys.deep_view(), global, local, r),
    {
        let mut keys: Keymaps = keys;
        match (global, local) {
            (Ok(global), Ok(local)) => {
                if let Some(over) = global.keys {
                    merge_keys(&mut keys, over);
                }
                if let Some(over) = local.keys {
                    merge_keys(&mut keys, over);
                }
                let editor: Option<Toml> = match (global.editor, local.editor) {
                    (Some(global), Some(local)) => Some(merge(global, local, EDITOR_DEPTH)),
                    (Some(global), None) => Some(global),
                    (None, local) => local,
                };
                let theme: Option<Toml> = match local.theme {
                    Some(theme) => Some(theme),
                    None => global.theme,
                };
                Ok(Config { theme, keys, editor })
            },
            (_, Err(ConfigLoadError::BadConfig(err))) => Err(ConfigLoadError::BadConfig(err)),
            (Err(ConfigLoadError::BadConfig(err)), _) => Err(ConfigLoadError::BadConfig(err)),
            (Ok(config), Err(_)) => Ok(Config::from_one(keys, config)),
            (Err(_), Ok(config)) => Ok(Config::from_one(keys, config)),
            (Err(err), Err(_)) => Err(err),
        }
    }

    fn from_one(keys: Keymaps, config: ConfigRaw) -> (r: Config)
        ensures
            r.theme == config.theme,
            r.keys.deep_view() == keys_over(keys.deep_view(), config.keys),
            r.editor == config.editor,
    {
        let mut keys: Keymaps = keys;
        if let Some(over) = config.keys {
            merge_keys(&mut keys, over);
        }
        Config { theme: config.theme, keys, editor: config.editor }
    }

    /// The configuration that is used: with the workspace's file only where the workspace is
    /// trusted. Whether a workspace is trusted is the user's to say and not the workspace's,
    /// so what the workspace's file says of it does not count.
    pub fn settle(
        trusted: bool,
        global: Config,
        both: Result<Config, ConfigLoadError>,
    ) -> (r: Result<Config, ConfigLoadError>)
        ensures
            settled(trusted, global, both, r),
    {
        if !trusted {
            return Ok(global);
        }
        match both {
            Err(err) => Err(err),
            Ok(both) => {
                let editor: Option<Toml> = pin_trust(both.editor, &global.editor);
                Ok(Config { theme: both.theme, keys: both.keys, editor })
            },
        }
    }
}

// ---------------------------------------------------------------------------------------
// Who says what is trusted
// ---------------------------------------------------------------------------------------

/// A table without a name.
pub open spec fn without(entries: Seq<(Seq<char>, TomlView)>, name: Seq<char>) -> Seq<
    (Seq<char>, TomlView),
> {
    let at = place(entries, name, 0);
    if at < entries.len() {
        entries.remove(at)
    } else {
        entries
    }
}

/// Settings with what others say of trust, and nothing of their own.
pub open spec fn pinned(editor: Option<TomlView>, global: Option<TomlView>) -> Option<TomlView> {
    let trust = match global {
        Some(global) => in_tree(global, "workspace-trust"@),
        None => None,
    };
    match editor {
        Some(TomlView::Table(entries)) => {
            let rest = without(entries, "workspace-trust"@);
            Some(
                TomlView::Table(
                    match trust {
                        Some(trust) => rest.push(("workspace-trust"@, trust)),
                        None => rest,
                    },
                ),
            )
        },
        other => other,
    }
}

fn take_out(entries: &mut Vec<(String, Toml)>, name: &str) -> (r: Option<Toml>)
    ensures
        entries_view(final(entries)@) == without(entries_view(old(entries)@), name@),
        view_of(r) == got(entries_view(old(entries)@), name@),
{
    let ghost before = entries@;
    let at: usize = find_entry(entries, name);
    if at < entries.len() {
        let (_, value): (String, Toml) = entries.remove(at);
        proof {
            assert(entries_view(entries@) =~= entries_view(before).remove(at as int));
        }
        Some(value)
    } else {
        None
    }
}

fn put_in(entries: &mut Vec<(String, Toml)>, name: &str, value: Toml)
    ensures
        entries_view(final(entries)@) == entries_view(old(entries)@).push(
            (name@, toml_view(value)),
        ),
{
    let ghost before = entries@;
    entries.push((name.to_string(), value));
    proof {
        assert(entries_view(entries@) =~= entries_view(before).push((name@, toml_view(value))));
    }
}

fn copy_entry(tree: &Option<Toml>, name: &str) -> (r: Option<Toml>)
    ensures
        view_of(r) == match view_of(*tree) {
            Some(tree) => in_tree(tree, name@),
            None => None,
        },
{
    match tree {
        Some(Toml::Table(entries)) => {
            proof {
                lemma_table_view(*entries);
            }
            let at: usize = find_entry(entries, name);
            if at < entries.len() {
                Some(copy(&entries[at].1))
            } else {
                None
            }
        },
        _ => None,
    }
}

fn pin_trust(editor: Option<Toml>, global: &Option<Toml>) -> (r: Option<Toml>)
    ensures
        view_of(r) == pinned(view_of(editor), view_of(*global)),
{
    let trust: Option<Toml> = copy_entry(global, "workspace-trust");
    match editor {
        Some(Toml::Table(entries)) => {
            let mut entries: Vec<(String, Toml)> = entries;
            proof {
                lemma_table_view(entries);
            }
            let dropped: Option<Toml> = take_out(&mut entries, "workspace-trust");
            if let Some(trust) = trust {
                put_in(&mut entries, "workspace-trust", trust);
            }
            proof {
                lemma_table_view(entries);
            }
            Some(Toml::Table(entries))
        },
        other => other,
    }
}

// ---------------------------------------------------------------------------------------
// Keys for every mode
// ---------------------------------------------------------------------------------------

/// The keys of a mode, with those for every mode laid under them.
pub open spec fn spread_one(
    keys: Seq<(Seq<char>, TomlView)>,
    all: TomlView,
    mode: Seq<char>,
) -> Seq<(Seq<char>, TomlView)> {
    let own = match got(keys, mode) {
        Some(own) => own,
        None => TomlView::Table(Seq::empty()),
    };
    without(keys, mode).push((mode, merged(all, own, usize::MAX as nat)))
}

/// The keys of the modes, with those for every mode laid under each.
pub open spec fn spread_keys(keys: Seq<(Seq<char>, TomlView)>) -> Seq<(Seq<char>, TomlView)> {
    match got(keys, "all"@) {
        None => keys,
        Some(all) => spread_one(
            spread_one(spread_one(without(keys, "all"@), all, "normal"@), all, "select"@),
            all,
            "insert"@,
        ),
    }
}

/// A configuration with its keys for every mode laid under each mode's own.
pub open spec fn spread(config: TomlView) -> TomlView {
    match config {
        TomlView::Table(entries) => {
            let at = place(entries, "keys"@, 0);
            if at < entries.len() {
                match entries[at].1 {
                    TomlView::Table(keys) => TomlView::Table(
                        entries.update(at, (entries[at].0, TomlView::Table(spread_keys(keys)))),
                    ),
                    _ => config,
                }
            } else {
                config
            }
        },
        _ => config,
    }
}

fn spread_mode(keys: &mut Vec<(String, Toml)>, all: &Toml, mode: &str)
    ensures
        entries_view(final(keys)@) == spread_one(entries_view(old(keys)@), toml_view(*all), mode@),
{
    let own: Option<Toml> = take_out(keys, mode);
    let own: Toml = match own {
        Some(own) => own,
        None => {
            let none: Vec<(String, Toml)> = Vec::new();
            proof {
                lemma_table_view(none);
                assert(entries_view(none@) =~= Seq::empty());
            }
            Toml::Table(none)
        },
    };
    let merged_keys: Toml = merge(copy(all), own, usize::MAX);
    put_in(keys, mode, merged_keys);
}

/// `[keys.all]` is laid under normal, select and insert, each mode's own table winning over
/// it: a key meant for every mode is written once.
pub fn spread_all_modes(config: Toml) -> (r: Toml)
    ensures
        toml_view(r) == spread(toml_view(config)),
        config is Table ==> r is Table,
{
    let entries: Vec<(String, Toml)> = match config {
        Toml::Table(entries) => entries,
        other => {
            return other;
        },
    };
    proof {
        lemma_table_view(entries);
    }
    let mut entries: Vec<(String, Toml)> = entries;
    let ghost before = entries@;
    let at: usize = find_entry(&entries, "keys");
    if at >= entries.len() {
        return Toml::Table(entries);
    }
    let (name, value): (String, Toml) = entries.remove(at);
    let value: Toml = match value {
        Toml::Table(keys) => {
            proof {
                lemma_table_view(keys);
            }
            let mut keys: Vec<(String, Toml)> = keys;
            let all: Option<Toml> = take_out(&mut keys, "all");
            if let Some(all) = all {
                spread_mode(&mut keys, &all, "normal");
                spread_mode(&mut keys, &all, "select");
                spread_mode(&mut keys, &all, "insert");
            }
            proof {
                lemma_table_view(keys);
            }
            Toml::Table(keys)
        },
        other => other,
    };
    entries.insert(at, (name, value));
    proof {
        lemma_table_view(entries);
        let seen = entries_view(before);
        assert(entries_view(entries@) =~= seen.update(at as int, (name@, toml_view(value))));
        if !(before[at as int].1 is Table) {
            assert(seen.update(at as int, seen[at as int]) =~= seen);
        }
    }
    Toml::Table(entries)
}

/// A file's text with its keys for every mode laid under each mode's own.
pub fn spread_all_modes_text(text: &str) -> (r: Result<String, ConfigLoadError>)
    ensures
        match tree_of(text@) {
            Ok(tree) => if tree is Table {
                r is Ok && (r->Ok_0)@ == tree_text(spread(tree)) && reads_as(
                    (r->Ok_0)@,
                    spread(tree),
                )
            } else {
                r is Err && r->Err_0 is BadConfig && (r->Err_0)->BadConfig_0@ == no_table_words()
            },
            Err(flaw) => r is Err && r->Err_0 is BadConfig && (r->Err_0)->BadConfig_0@ == flaw,
        },
{
    match read_toml(text) {
        Err(flaw) => Err(ConfigLoadError::BadConfig(flaw)),
        Ok(tree) => {
            if !has_names(&tree) {
                return Err(no_table());
            }
            let spread: Toml = spread_all_modes(tree);
            Ok(print_toml(&spread))
        },
    }
}

/// The user's configuration laid over the defaults, as the text that is loaded. In both, the
/// keys for every mode are laid under each mode's own first.
pub fn over_defaults(defaults: &str, user: &str) -> (r: Result<String, ConfigLoadError>)
    ensures
        match (tree_of(defaults@), tree_of(user@)) {
            (Ok(defaults), Ok(user)) => if defaults is Table && user is Table {
                let both = merged(spread(defaults), spread(user), usize::MAX as nat);
                r is Ok && (r->Ok_0)@ == tree_text(both) && reads_as((r->Ok_0)@, both)
            } else {
                r is Err && r->Err_0 is BadConfig && (r->Err_0)->BadConfig_0@ == no_table_words()
            },
            (Err(flaw), _) => r is Err && r->Err_0 is BadConfig && (r->Err_0)->BadConfig_0@ == flaw,
            (_, Err(flaw)) => r is Err && r->Err_0 is BadConfig && (r->Err_0)->BadConfig_0@ == flaw,
        },
{
    let defaults: Toml = match read_toml(defaults) {
        Ok(tree) => tree,
        Err(flaw) => {
            return Err(ConfigLoadError::BadConfig(flaw));
        },
    };
    let user: Toml = match read_toml(user) {
        Ok(tree) => tree,
        Err(flaw) => {
            return Err(ConfigLoadError::BadConfig(flaw));
        },
    };
    if !has_names(&defaults) || !has_names(&user) {
        return Err(no_table());
    }
    let tree: Toml = merge(spread_all_modes(defaults), spread_all_modes(user), usize::MAX);
    Ok(print_toml(&tree))
}

/// The keys the editor ships with, before the user's file is laid over them: those of its
/// defaults as they were loaded, or its built-in ones where they could not be.
pub fn default_keys(loaded: Result<Config, ConfigLoadError>, built_in: Keymaps) -> (r: Keymaps)
    ensures
        r == match loaded {
            Ok(config) => config.keys,
            Err(_) => built_in,
        },
{
    match loaded {
        Ok(config) => config.keys,
        Err(_) => built_in,
    }
}

/// Why a file could not be read.
#[derive(Debug)]
pub enum ReadFailure {
    NotFound,
    Other(String),
}

/// The user's configuration, as it was read. That there is none is not an error: the defaults
/// are a configuration of their own.
pub fn user_text(read: Result<String, ReadFailure>) -> (r: Result<String, ConfigLoadError>)
    ensures
        match read {
            Ok(text) => r == Ok::<String, ConfigLoadError>(text),
            Err(ReadFailure::NotFound) => r is Ok && (r->Ok_0)@ == ""@,
            Err(ReadFailure::Other(err)) => r == Err::<String, ConfigLoadError>(
                ConfigLoadError::Error(err),
            ),
        },
{
    match read {
        Ok(text) => Ok(text),
        Err(ReadFailure::NotFound) => Ok("".to_string()),
        Err(ReadFailure::Other(err)) => Err(ConfigLoadError::Error(err)),
    }
}

// ---------------------------------------------------------------------------------------
// Laws
// ---------------------------------------------------------------------------------------

proof fn lemma_without(entries: Seq<(Seq<char>, TomlView)>, name: Seq<char>, other: Seq<char>)
    requires
        names_once(entries),
    ensures
        names_once(without(entries, name)),
        got(without(entries, name), other) == if other == name {
            None
        } else {
            got(entries, other)
        },
{
    let rest = without(entries, name);
    let at = place(entries, name, 0);
    lemma_place(entries, name, 0);
    lemma_place(entries, other, 0);
    lemma_place(rest, other, 0);
    if at < entries.len() {
        assert forall|i: int, j: int| 0 <= i < j < rest.len() implies (#[trigger] rest[i]).0 != (
        #[trigger] rest[j]).0 by {
            let p = if i < at {
                i
            } else {
                i + 1
            };
            let q = if j < at {
                j
            } else {
                j + 1
            };
            assert(rest[i] == entries[p] && rest[j] == entries[q]);
        }
        let k = place(rest, other, 0);
        let p = place(entries, other, 0);
        if k < rest.len() {
            let q = if k < at {
                k
            } else {
                k + 1
            };
            assert(rest[k] == entries[q]);
            if p < q {
                assert(entries[p].0 != entries[q].0);
            } else if q < p {
                assert(entries[q].0 != other);
            }
        } else if p < entries.len() && other != name {
            let q = if p < at {
                p
            } else {
                p - 1
            };
            assert(rest[q] == entries[p]);
        }
    }
}

proof fn lemma_pushed(
    entries: Seq<(Seq<char>, TomlView)>,
    name: Seq<char>,
    value: TomlView,
    other: Seq<char>,
)
    requires
        names_once(entries),
        got(entries, name) is None,
    ensures
        names_once(entries.push((name, value))),
        got(entries.push((name, value)), other) == if other == name {
            Some(value)
        } else {
            got(entries, other)
        },
{
    let more = entries.push((name, value));
    lemma_place(entries, name, 0);
    lemma_place(entries, other, 0);
    lemma_place(more, other, 0);
    let k = place(more, other, 0);
    let p = place(entries, other, 0);
    if p < entries.len() {
        assert(more[p] == entries[p]);
        if k < p {
            assert(more[k] == entries[k]);
        }
    } else {
        if k < entries.len() {
            assert(more[k] == entries[k]);
        }
        if other == name {
            assert(more[entries.len() as int].0 == other);
        }
    }
}

proof fn lemma_spread_one(
    keys: Seq<(Seq<char>, TomlView)>,
    all: TomlView,
    mode: Seq<char>,
    name: Seq<char>,
)
    requires
        names_once(keys),
    ensures
        names_once(spread_one(keys, all, mode)),
        got(spread_one(keys, all, mode), name) == if name == mode {
            Some(
                merged(
                    all,
                    match got(keys, mode) {
                        Some(own) => own,
                        None => TomlView::Table(Seq::empty()),
                    },
                    usize::MAX as nat,
                ),
            )
        } else {
            got(keys, name)
        },
{
    let own = match got(keys, mode) {
        Some(own) => own,
        None => TomlView::Table(Seq::empty()),
    };
    lemma_without(keys, mode, mode);
    lemma_without(keys, mode, name);
    lemma_pushed(without(keys, mode), mode, merged(all, own, usize::MAX as nat), name);
}

/// Keys for every mode reach every mode: each mode's table is theirs with its own laid over
/// it, and the table for every mode is gone.
pub proof fn keys_for_all_reach_every_mode(
    keys: Seq<(Seq<char>, TomlView)>,
    all: TomlView,
    name: Seq<char>,
)
    requires
        names_once(keys),
        got(keys, "all"@) == Some(all),
    ensures
        got(spread_keys(keys), name) == if name == "normal"@ || name == "select"@ || name
            == "insert"@ {
            Some(
                merged(
                    all,
                    match got(keys, name) {
                        Some(own) => own,
                        None => TomlView::Table(Seq::empty()),
                    },
                    usize::MAX as nat,
                ),
            )
        } else if name == "all"@ {
            None
        } else {
            got(keys, name)
        },
{
    reveal_strlit("normal");
    reveal_strlit("select");
    reveal_strlit("insert");
    reveal_strlit("all");
    assert("normal"@.len() == 6 && "select"@.len() == 6 && "insert"@.len() == 6 && "all"@.len()
        == 3);
    assert("normal"@[0] == 'n' && "select"@[0] == 's' && "insert"@[0] == 'i');
    let none = without(keys, "all"@);
    lemma_without(keys, "all"@, name);
    lemma_without(keys, "all"@, "normal"@);
    lemma_without(keys, "all"@, "select"@);
    lemma_without(keys, "all"@, "insert"@);
    let one = spread_one(none, all, "normal"@);
    lemma_spread_one(none, all, "normal"@, name);
    lemma_spread_one(none, all, "normal"@, "select"@);
    lemma_spread_one(none, all, "normal"@, "insert"@);
    let two = spread_one(one, all, "select"@);
    lemma_spread_one(one, all, "select"@, name);
    lemma_spread_one(one, all, "select"@, "insert"@);
    lemma_spread_one(two, all, "insert"@, name);
}

/// A mode's own key wins over the one for every mode, and a key only for every mode is the
/// mode's too.
pub proof fn a_modes_own_key_wins(
    all: Seq<(Seq<char>, TomlView)>,
    own: Seq<(Seq<char>, TomlView)>,
    key: Seq<char>,
)
    requires
        names_once(all),
        names_once(own),
    ensures
        ({
            let both = merged(TomlView::Table(all), TomlView::Table(own), usize::MAX as nat);
            &&& got(own, key) is None ==> in_tree(both, key) == got(all, key)
            &&& got(own, key) is Some && !(got(own, key)->0 is Table) && !(got(own, key)->0 is List)
                ==> in_tree(both, key) == got(own, key)
        }),
{
    laying_over_keeps_both(all, own, usize::MAX as nat, key);
}

/// A workspace cannot say that it is trusted: whatever its file says of it, the settings have
/// what the user's say.
pub proof fn trust_is_the_users_to_give(
    editor: Seq<(Seq<char>, TomlView)>,
    global: Option<TomlView>,
)
    requires
        names_once(editor),
    ensures
        ({
            let settings = pinned(Some(TomlView::Table(editor)), global);
            &&& settings is Some
            &&& in_tree(settings->0, "workspace-trust"@) == match global {
                Some(global) => in_tree(global, "workspace-trust"@),
                None => None,
            }
        }),
{
    let name = "workspace-trust"@;
    lemma_without(editor, name, name);
    let trust = match global {
        Some(global) => in_tree(global, name),
        None => None,
    };
    if let Some(trust) = trust {
        lemma_pushed(without(editor, name), name, trust, name);
    }
}

/// What a workspace's file says wins over the user's, and what it leaves unsaid is the user's.
/// A file that is wrong is never passed over, the workspace's told first; one that is not there
/// counts for nothing.
pub proof fn the_workspace_wins_over_the_user(
    keys: KeymapsView,
    global: Result<ConfigRaw, ConfigLoadError>,
    local: Result<ConfigRaw, ConfigLoadError>,
    r: Result<Config, ConfigLoadError>,
)
    requires
        loaded(keys, global, local, r),
    ensures
        local matches Err(ConfigLoadError::BadConfig(err)) ==> r == Err::<Config, ConfigLoadError>(
            ConfigLoadError::BadConfig(err),
        ),
        global is Err && (global->Err_0) is BadConfig ==> r is Err && r->Err_0 is BadConfig,
        global is Ok && local is Ok ==> {
            &&& r is Ok
            &&& (local->Ok_0).theme is Some ==> view_of((r->Ok_0).theme) == view_of(
                (local->Ok_0).theme,
            )
            &&& (local->Ok_0).theme is None ==> view_of((r->Ok_0).theme) == view_of(
                (global->Ok_0).theme,
            )
            &&& (local->Ok_0).editor is None ==> view_of((r->Ok_0).editor) == view_of(
                (global->Ok_0).editor,
            )
            &&& (global->Ok_0).editor is None ==> view_of((r->Ok_0).editor) == view_of(
                (local->Ok_0).editor,
            )
            &&& (global->Ok_0).keys is None && (local->Ok_0).keys is None ==> (
            r->Ok_0).keys.deep_view() == keys
        },
        global is Ok && (local matches Err(ConfigLoadError::Error(_))) ==> r is Ok && (
        r->Ok_0).theme == (global->Ok_0).theme && (r->Ok_0).editor == (global->Ok_0).editor,
        local is Ok && (global matches Err(ConfigLoadError::Error(_))) ==> r is Ok && (
        r->Ok_0).theme == (local->Ok_0).theme && (r->Ok_0).editor == (local->Ok_0).editor,
        r is Ok ==> global is Ok || local is Ok,
{
}

/// A workspace that is not trusted changes nothing: not even a file of its that is wrong is
/// told of. One that is trusted has its theme and its keys.
pub proof fn only_what_is_trusted_counts(
    trusted: bool,
    global: Config,
    both: Result<Config, ConfigLoadError>,
    r: Result<Config, ConfigLoadError>,
)
    requires
        settled(trusted, global, both, r),
    ensures
        !trusted ==> r == Ok::<Config, ConfigLoadError>(global),
        trusted && both is Ok ==> r is Ok && (r->Ok_0).theme == (both->Ok_0).theme && (
        r->Ok_0).keys == (both->Ok_0).keys,
        trusted && both is Err ==> r is Err,
{
}

} // verus!
