//! TOML as a tree of values, and one tree laid over another.

use crate::text::same_str;
use vstd::prelude::*;

verus! {

/// A TOML value.
#[derive(Debug)]
pub enum Toml {
    Text(String),
    Number(i64),
    Flag(bool),
    /// A value of another kind, as it is written.
    Other(String),
    List(Vec<Toml>),
    /// The names of a table, each once, with what they lead to.
    Table(Vec<(String, Toml)>),
}

pub enum TomlView {
    Text(Seq<char>),
    Number(i64),
    Flag(bool),
    Other(Seq<char>),
    List(Seq<TomlView>),
    Table(Seq<(Seq<char>, TomlView)>),
}

pub open spec fn toml_view(toml: Toml) -> TomlView
    decreases toml,
{
    match toml {
        Toml::Text(text) => TomlView::Text(text@),
        Toml::Number(number) => TomlView::Number(number),
        Toml::Flag(on) => TomlView::Flag(on),
        Toml::Other(text) => TomlView::Other(text@),
        Toml::List(items) => TomlView::List(
            Seq::new(
                items@.len(),
                |i: int|
                    if 0 <= i < items@.len() {
                        toml_view(items@[i])
                    } else {
                        arbitrary()
                    },
            ),
        ),
        Toml::Table(entries) => TomlView::Table(
            Seq::new(
                entries@.len(),
                |i: int|
                    if 0 <= i < entries@.len() {
                        (entries@[i].0@, toml_view(entries@[i].1))
                    } else {
                        arbitrary()
                    },
            ),
        ),
    }
}

impl DeepView for Toml {
    type V = TomlView;

    open spec fn deep_view(&self) -> TomlView {
        toml_view(*self)
    }
}

pub open spec fn items_view(items: Seq<Toml>) -> Seq<TomlView> {
    Seq::new(items.len(), |i: int| toml_view(items[i]))
}

pub open spec fn entries_view(entries: Seq<(String, Toml)>) -> Seq<(Seq<char>, TomlView)> {
    Seq::new(entries.len(), |i: int| (entries[i].0@, toml_view(entries[i].1)))
}

pub proof fn lemma_list_view(items: Vec<Toml>)
    ensures
        toml_view(Toml::List(items)) == TomlView::List(items_view(items@)),
{
    if let TomlView::List(seen) = toml_view(Toml::List(items)) {
        assert(seen =~= items_view(items@));
    }
}

pub proof fn lemma_table_view(entries: Vec<(String, Toml)>)
    ensures
        toml_view(Toml::Table(entries)) == TomlView::Table(entries_view(entries@)),
{
    if let TomlView::Table(seen) = toml_view(Toml::Table(entries)) {
        assert(seen =~= entries_view(entries@));
    }
}

/// The first entry from `k` on of a name, by number; or the end.
pub open spec fn place(entries: Seq<(Seq<char>, TomlView)>, name: Seq<char>, k: int) -> int
    decreases entries.len() - k,
{
    if k >= entries.len() {
        entries.len() as int
    } else if entries[k].0 == name {
        k
    } else {
        place(entries, name, k + 1)
    }
}

pub proof fn lemma_place(entries: Seq<(Seq<char>, TomlView)>, name: Seq<char>, k: int)
    requires
        0 <= k <= entries.len(),
    ensures
        k <= place(entries, name, k) <= entries.len(),
        place(entries, name, k) < entries.len() ==> entries[place(entries, name, k)].0 == name,
        forall|j: int| k <= j < place(entries, name, k) ==> entries[j].0 != name,
    decreases entries.len() - k,
{
    if k < entries.len() && entries[k].0 != name {
        lemma_place(entries, name, k + 1);
    }
}

/// What a name of a table leads to.
pub open spec fn got(entries: Seq<(Seq<char>, TomlView)>, name: Seq<char>) -> Option<TomlView> {
    let at = place(entries, name, 0);
    if at < entries.len() {
        Some(entries[at].1)
    } else {
        None
    }
}

/// What a name leads to in a tree; nothing, where it is no table.
pub open spec fn in_tree(toml: TomlView, name: Seq<char>) -> Option<TomlView> {
    match toml {
        TomlView::Table(entries) => got(entries, name),
        _ => None,
    }
}

pub fn find_entry(entries: &Vec<(String, Toml)>, name: &str) -> (r: usize)
    ensures
        r == place(entries_view(entries@), name@, 0),
        r <= entries@.len(),
{
    let ghost all = entries_view(entries@);
    let mut k: usize = 0;
    while k < entries.len()
        invariant
            k <= entries@.len(),
            all == entries_view(entries@),
            place(all, name@, 0) == place(all, name@, k as int),
        decreases entries@.len() - k,
    {
        if same_str(entries[k].0.as_str(), name) {
            return k;
        }
        k = k + 1;
    }
    k
}

// ---------------------------------------------------------------------------------------
// Reading and writing
// ---------------------------------------------------------------------------------------

#[verifier::external_type_specification]
#[verifier::external_body]
pub struct ExTomlValue(toml::Value);

/// What a text holds that is read as TOML, or what is wrong with it.
pub uninterp spec fn tree_of(text: Seq<char>) -> Result<TomlView, Seq<char>>;

/// A tree as it is written.
pub uninterp spec fn tree_text(tree: TomlView) -> Seq<char>;

/// The names of a table, each once; those that begin with a dollar sign are the reader's own.
pub open spec fn plain_names(entries: Seq<(Seq<char>, TomlView)>) -> bool {
    &&& forall|i: int|
        0 <= i < entries.len() ==> ((#[trigger] entries[i]).0.len() > 0 ==> entries[i].0[0] != '$')
    &&& forall|i: int, j: int|
        0 <= i < j < entries.len() ==> (#[trigger] entries[i]).0 != (#[trigger] entries[j]).0
}

/// How deep lists and tables may stand in one another on one line, and how many names may
/// stand in the head of a table, for what is written to be read.
pub open spec fn most_levels() -> nat {
    80
}

/// Whether a value can be read again from one line: nothing in it is of a kind that is not
/// told apart, and no more than `n` lists and tables stand in one another.
pub open spec fn on_a_line(value: TomlView, n: nat) -> bool
    decreases n,
{
    match value {
        TomlView::Other(_) => false,
        TomlView::List(items) => n > 0 && forall|i: int|
            0 <= i < items.len() ==> on_a_line(#[trigger] items[i], (n - 1) as nat),
        TomlView::Table(entries) => n > 0 && plain_names(entries) && forall|i: int|
            0 <= i < entries.len() ==> on_a_line((#[trigger] entries[i]).1, (n - 1) as nat),
        _ => true,
    }
}

/// A list of tables, which are written one behind the other under its name.
pub open spec fn lists_tables(value: TomlView) -> bool {
    value matches TomlView::List(items) && items.len() > 0 && forall|i: int|
        0 <= i < items.len() ==> (#[trigger] items[i]) is Table
}

/// Whether a table can be read again from what it is written as, `n` more names being left
/// for the heads of the tables in it.
pub open spec fn readable(table: TomlView, n: nat) -> bool
    decreases n,
{
    match table {
        TomlView::Table(entries) => plain_names(entries) && forall|i: int|
            0 <= i < entries.len() ==> {
                let value = (#[trigger] entries[i]).1;
                if value is Table {
                    n > 0 && readable(value, (n - 1) as nat)
                } else if lists_tables(value) {
                    n > 0 && forall|k: int|
                        0 <= k < value->List_0.len() ==> readable(
                            #[trigger] value->List_0[k],
                            (n - 1) as nat,
                        )
                } else {
                    on_a_line(value, most_levels())
                }
            },
        _ => false,
    }
}

/// Two trees that hold the same, the names of each table in whatever order.
pub open spec fn alike(a: TomlView, b: TomlView) -> bool
    decreases a,
{
    match (a, b) {
        (TomlView::List(x), TomlView::List(y)) => x.len() == y.len() && forall|i: int|
            0 <= i < x.len() ==> alike(#[trigger] x[i], y[i]),
        (TomlView::Table(x), TomlView::Table(y)) => {
            &&& forall|i: int|
                0 <= i < x.len() ==> {
                    let j = place(y, (#[trigger] x[i]).0, 0);
                    j < y.len() && alike(x[i].1, y[j].1)
                }
            &&& forall|j: int| 0 <= j < y.len() ==> place(x, (#[trigger] y[j]).0, 0) < x.len()
        },
        _ => a == b,
    }
}

/// A text that a tree is read from again, where the tree can be.
pub open spec fn reads_as(text: Seq<char>, tree: TomlView) -> bool {
    readable(tree, most_levels()) ==> (tree_of(text) matches Ok(read) && alike(tree, read))
}

/// What a name leads to in trees that hold the same.
pub proof fn lemma_alike(
    x: Seq<(Seq<char>, TomlView)>,
    y: Seq<(Seq<char>, TomlView)>,
    name: Seq<char>,
)
    requires
        alike(TomlView::Table(x), TomlView::Table(y)),
    ensures
        match (got(x, name), got(y, name)) {
            (Some(one), Some(other)) => alike(one, other),
            (None, None) => true,
            _ => false,
        },
{
    lemma_place(x, name, 0);
    lemma_place(y, name, 0);
    let i = place(x, name, 0);
    let j = place(y, name, 0);
    let a = TomlView::Table(x);
    let b = TomlView::Table(y);
    assert(a->Table_0 == x && b->Table_0 == y);
    assert(alike(a, b));
    assert(forall|i: int|
        0 <= i < x.len() ==> {
            let j = place(y, (#[trigger] x[i]).0, 0);
            j < y.len() && alike(x[i].1, y[j].1)
        });
    assert(forall|j: int| 0 <= j < y.len() ==> place(x, (#[trigger] y[j]).0, 0) < x.len());
    if i < x.len() {
        assert(x[i].0 == name);
    } else if j < y.len() {
        assert(y[j].0 == name);
    }
}

/// The variants of `toml::Value`, each value moved into its own kind; a float or a date is
/// kept as `toml::Value::to_string` writes it.
#[verifier::external_body]
fn from_value(value: toml::Value) -> (r: Toml) {
    match value {
        toml::Value::String(text) => Toml::Text(text),
        toml::Value::Integer(number) => Toml::Number(number),
        toml::Value::Boolean(on) => Toml::Flag(on),
        toml::Value::Array(items) => Toml::List(items.into_iter().map(from_value).collect()),
        toml::Value::Table(table) => Toml::Table(
            table.into_iter().map(|(name, value)| (name, from_value(value))).collect(),
        ),
        other => Toml::Other(other.to_string()),
    }
}

/// The same the other way: a float or a date is read by `toml::Value::from_str` from what it
/// was written as.
#[verifier::external_body]
fn to_value(toml: &Toml) -> (r: toml::Value) {
    match toml {
        Toml::Text(text) => toml::Value::String(text.clone()),
        Toml::Number(number) => toml::Value::Integer(*number),
        Toml::Flag(on) => toml::Value::Boolean(*on),
        Toml::List(items) => toml::Value::Array(items.iter().map(to_value).collect()),
        Toml::Table(entries) => toml::Value::Table(
            entries.iter().map(|(name, value)| (name.clone(), to_value(value))).collect(),
        ),
        Toml::Other(text) => text.parse().unwrap_or_else(|_| toml::Value::String(text.clone())),
    }
}

/// `toml::from_str`: reads a text as TOML. A document is a table, but for one that begins with
/// the name the reader keeps a date under, which is a date.
#[verifier::external_body]
pub(crate) fn read_toml(text: &str) -> (r: Result<Toml, String>)
    ensures
        match r {
            Ok(tree) => tree_of(text@) == Ok::<TomlView, Seq<char>>(toml_view(tree)),
            Err(flaw) => tree_of(text@) == Err::<TomlView, Seq<char>>(flaw@),
        },
{
    toml::from_str::<toml::Value>(text).map(from_value).map_err(|flaw| flaw.to_string())
}

/// `toml::to_string`: a table as it is written, sorted by its names. A table of values always
/// can be. `toml::from_str` gives back what was written, where every kind of value in it is
/// told apart and it is not nested deeper than is read.
#[verifier::external_body]
pub(crate) fn print_toml(tree: &Toml) -> (r: String)
    requires
        tree is Table,
    ensures
        r@ == tree_text(toml_view(*tree)),
        reads_as(r@, toml_view(*tree)),
{
    toml::to_string(&to_value(tree)).unwrap_or_default()
}

/// The tree a text holds, or what is wrong with the text.
pub fn parse(text: &str) -> (r: Result<Toml, String>)
    ensures
        match r {
            Ok(tree) => tree_of(text@) == Ok::<TomlView, Seq<char>>(toml_view(tree)),
            Err(flaw) => tree_of(text@) == Err::<TomlView, Seq<char>>(flaw@),
        },
{
    read_toml(text)
}

// ---------------------------------------------------------------------------------------
// Laying one tree over another
// ---------------------------------------------------------------------------------------

/// The name a table in a list goes by.
pub open spec fn name_of(item: TomlView) -> Option<Seq<char>> {
    match in_tree(item, "name"@) {
        Some(TomlView::Text(name)) => Some(name),
        _ => None,
    }
}

/// The first item from `k` on that goes by a name, by number; or the end.
pub open spec fn place_named(items: Seq<TomlView>, name: Seq<char>, k: int) -> int
    decreases items.len() - k,
{
    if k >= items.len() {
        items.len() as int
    } else if name_of(items[k]) == Some(name) {
        k
    } else {
        place_named(items, name, k + 1)
    }
}

/// One tree laid over another, `depth` tables deep: what is under a name in both is laid over
/// one another in turn, and what is behind that depth is the upper's alone. Of two lists, a
/// table of the upper is laid over the one of the lower by the same name, and what has no such
/// one comes behind them.
pub open spec fn merged(lower: TomlView, upper: TomlView, depth: nat) -> TomlView
    decreases depth, 1nat, 0nat,
{
    match (lower, upper) {
        (TomlView::List(below), TomlView::List(above)) => if depth > 0 {
            TomlView::List(merged_items(below, above, depth, above.len()))
        } else {
            upper
        },
        (TomlView::Table(below), TomlView::Table(above)) => if depth > 0 {
            TomlView::Table(merged_entries(below, above, depth, above.len()))
        } else {
            upper
        },
        _ => upper,
    }
}

/// A list with the first `n` items of another laid over it.
pub open spec fn merged_items(
    below: Seq<TomlView>,
    above: Seq<TomlView>,
    depth: nat,
    n: nat,
) -> Seq<TomlView>
    decreases depth, 0nat, n,
{
    if n == 0 || depth == 0 {
        below
    } else {
        let so_far = merged_items(below, above, depth, (n - 1) as nat);
        let item = above[n - 1];
        match name_of(item) {
            Some(name) => {
                let at = place_named(so_far, name, 0);
                if at < so_far.len() {
                    so_far.remove(at).push(merged(so_far[at], item, (depth - 1) as nat))
                } else {
                    so_far.push(item)
                }
            },
            None => so_far.push(item),
        }
    }
}

/// A table with the first `n` entries of another laid over it.
pub open spec fn merged_entries(
    below: Seq<(Seq<char>, TomlView)>,
    above: Seq<(Seq<char>, TomlView)>,
    depth: nat,
    n: nat,
) -> Seq<(Seq<char>, TomlView)>
    decreases depth, 0nat, n,
{
    if n == 0 || depth == 0 {
        below
    } else {
        let so_far = merged_entries(below, above, depth, (n - 1) as nat);
        let (name, value) = above[n - 1];
        let at = place(so_far, name, 0);
        if at < so_far.len() {
            so_far.update(at, (name, merged(so_far[at].1, value, (depth - 1) as nat)))
        } else {
            so_far.push((name, value))
        }
    }
}

fn read_name(item: &Toml) -> (r: Option<String>)
    ensures
        r.deep_view() == name_of(toml_view(*item)),
{
    if let Toml::Table(entries) = item {
        proof {
            lemma_table_view(*entries);
        }
        let at: usize = find_entry(entries, "name");
        if at < entries.len() {
            if let Toml::Text(name) = &entries[at].1 {
                return Some(name.clone());
            }
        }
    }
    None
}

fn find_named(items: &Vec<Toml>, name: &str) -> (r: usize)
    ensures
        r == place_named(items_view(items@), name@, 0),
        r <= items@.len(),
{
    let ghost all = items_view(items@);
    let mut k: usize = 0;
    while k < items.len()
        invariant
            k <= items@.len(),
            all == items_view(items@),
            place_named(all, name@, 0) == place_named(all, name@, k as int),
        decreases items@.len() - k,
    {
        let own: Option<String> = read_name(&items[k]);
        proof {
            assert(all[k as int] == toml_view(items@[k as int]));
        }
        if let Some(own) = own {
            if same_str(own.as_str(), name) {
                return k;
            }
        }
        k = k + 1;
    }
    k
}

fn merge_lists(below: Vec<Toml>, above: Vec<Toml>, depth: usize) -> (r: Vec<Toml>)
    requires
        depth > 0,
    ensures
        items_view(r@) == merged_items(
            items_view(below@),
            items_view(above@),
            depth as nat,
            above@.len(),
        ),
    decreases depth, 0nat,
{
    let ghost lower = items_view(below@);
    let ghost upper = items_view(above@);
    let ghost given = above@;
    let mut out: Vec<Toml> = below;
    let mut rest: Vec<Toml> = above;
    let ghost mut n: nat = 0;
    proof {
        assert(given.skip(0) =~= given);
    }
    while rest.len() > 0
        invariant
            depth > 0,
            n <= given.len(),
            rest@ == given.skip(n as int),
            upper == items_view(given),
            items_view(out@) == merged_items(lower, upper, depth as nat, n),
        decreases rest@.len(),
    {
        let item: Toml = rest.remove(0);
        proof {
            assert(item == given[n as int]);
            assert(rest@ =~= given.skip(n + 1 as int));
            assert(upper[n as int] == toml_view(item));
        }
        let ghost so_far = out@;
        let name: Option<String> = read_name(&item);
        let mut merged_item: Toml = item;
        if let Some(name) = name {
            let at: usize = find_named(&out, name.as_str());
            if at < out.len() {
                let old: Toml = out.remove(at);
                proof {
                    assert(items_view(out@) =~= items_view(so_far).remove(at as int));
                    assert(toml_view(old) == items_view(so_far)[at as int]);
                }
                merged_item = merge(old, merged_item, depth - 1);
            }
        }
        let ghost before = out@;
        out.push(merged_item);
        proof {
            assert(items_view(out@) =~= items_view(before).push(toml_view(merged_item)));
            n = n + 1;
            assert(items_view(out@) =~= merged_items(lower, upper, depth as nat, n));
        }
    }
    out
}

fn merge_tables(below: Vec<(String, Toml)>, above: Vec<(String, Toml)>, depth: usize) -> (r: Vec<
    (String, Toml),
>)
    requires
        depth > 0,
    ensures
        entries_view(r@) == merged_entries(
            entries_view(below@),
            entries_view(above@),
            depth as nat,
            above@.len(),
        ),
    decreases depth, 0nat,
{
    let ghost lower = entries_view(below@);
    let ghost upper = entries_view(above@);
    let ghost given = above@;
    let mut out: Vec<(String, Toml)> = below;
    let mut rest: Vec<(String, Toml)> = above;
    let ghost mut n: nat = 0;
    proof {
        assert(given.skip(0) =~= given);
    }
    while rest.len() > 0
        invariant
            depth > 0,
            n <= given.len(),
            rest@ == given.skip(n as int),
            upper == entries_view(given),
            entries_view(out@) == merged_entries(lower, upper, depth as nat, n),
        decreases rest@.len(),
    {
        let (name, value): (String, Toml) = rest.remove(0);
        proof {
            assert((name, value) == given[n as int]);
            assert(rest@ =~= given.skip(n + 1 as int));
            assert(upper[n as int] == (name@, toml_view(value)));
            lemma_place(entries_view(out@), name@, 0);
        }
        let ghost so_far = out@;
        let at: usize = find_entry(&out, name.as_str());
        if at < out.len() {
            let (key, old): (String, Toml) = out.remove(at);
            proof {
                assert((key@, toml_view(old)) == entries_view(so_far)[at as int]);
            }
            let value: Toml = merge(old, value, depth - 1);
            out.insert(at, (key, value));
            proof {
                assert(entries_view(out@) =~= entries_view(so_far).update(
                    at as int,
                    (name@, toml_view(value)),
                ));
            }
        } else {
            out.push((name, value));
            proof {
                assert(entries_view(out@) =~= entries_view(so_far).push((name@, toml_view(value))));
            }
        }
        proof {
            n = n + 1;
            assert(entries_view(out@) =~= merged_entries(lower, upper, depth as nat, n));
        }
    }
    out
}

/// One tree laid over another, `depth` tables deep.
pub fn merge(lower: Toml, upper: Toml, depth: usize) -> (r: Toml)
    ensures
        toml_view(r) == merged(toml_view(lower), toml_view(upper), depth as nat),
        lower is Table && upper is Table ==> r is Table,
    decreases depth, 1nat,
{
    match (lower, upper) {
        (Toml::List(below), Toml::List(above)) => {
            proof {
                lemma_list_view(below);
                lemma_list_view(above);
            }
            if depth == 0 {
                return Toml::List(above);
            }
            let items: Vec<Toml> = merge_lists(below, above, depth);
            proof {
                lemma_list_view(items);
            }
            Toml::List(items)
        },
        (Toml::Table(below), Toml::Table(above)) => {
            proof {
                lemma_table_view(below);
                lemma_table_view(above);
            }
            if depth == 0 {
                return Toml::Table(above);
            }
            let entries: Vec<(String, Toml)> = merge_tables(below, above, depth);
            proof {
                lemma_table_view(entries);
            }
            Toml::Table(entries)
        },
        (_, upper) => upper,
    }
}

pub proof fn lemma_item(toml: Toml, i: int)
    requires
        toml is List,
        0 <= i < toml->List_0@.len(),
    ensures
        decreases_to!(toml => toml->List_0@[i]),
{
    let items = toml->List_0;
    assert(decreases_to!(toml => items));
    assert(decreases_to!(items => items[i]));
}

pub proof fn lemma_entry(toml: Toml, i: int)
    requires
        toml is Table,
        0 <= i < toml->Table_0@.len(),
    ensures
        decreases_to!(toml => toml->Table_0@[i].1),
{
    let entries = toml->Table_0;
    assert(decreases_to!(toml => entries));
    assert(decreases_to!(entries => entries[i]));
    assert(decreases_to!(entries[i] => entries[i].1));
}

/// A copy of a tree.
pub fn copy(toml: &Toml) -> (r: Toml)
    ensures
        toml_view(r) == toml_view(*toml),
        r is Table == toml is Table,
    decreases *toml,
{
    match toml {
        Toml::Text(text) => Toml::Text(text.clone()),
        Toml::Number(number) => Toml::Number(*number),
        Toml::Flag(on) => Toml::Flag(*on),
        Toml::Other(text) => Toml::Other(text.clone()),
        Toml::List(items) => {
            let mut out: Vec<Toml> = Vec::new();
            let mut n: usize = 0;
            while n < items.len()
                invariant
                    n <= items@.len(),
                    *toml == Toml::List(*items),
                    items_view(out@) == items_view(items@).take(n as int),
                decreases items@.len() - n,
            {
                proof {
                    lemma_item(*toml, n as int);
                }
                let ghost before = out@;
                let item: Toml = copy(&items[n]);
                out.push(item);
                n = n + 1;
                proof {
                    assert(items_view(out@) =~= items_view(before).push(toml_view(item)));
                    assert(items_view(out@) =~= items_view(items@).take(n as int));
                }
            }
            proof {
                lemma_list_view(*items);
                lemma_list_view(out);
                assert(items_view(out@) =~= items_view(items@));
            }
            Toml::List(out)
        },
        Toml::Table(entries) => {
            let mut out: Vec<(String, Toml)> = Vec::new();
            let mut n: usize = 0;
            while n < entries.len()
                invariant
                    n <= entries@.len(),
                    *toml == Toml::Table(*entries),
                    entries_view(out@) == entries_view(entries@).take(n as int),
                decreases entries@.len() - n,
            {
                proof {
                    lemma_entry(*toml, n as int);
                }
                let ghost before = out@;
                let name: String = entries[n].0.clone();
                let value: Toml = copy(&entries[n].1);
                out.push((name, value));
                n = n + 1;
                proof {
                    assert(entries_view(out@) =~= entries_view(before).push(
                        (name@, toml_view(value)),
                    ));
                    assert(entries_view(out@) =~= entries_view(entries@).take(n as int));
                }
            }
            proof {
                lemma_table_view(*entries);
                lemma_table_view(out);
                assert(entries_view(out@) =~= entries_view(entries@));
            }
            Toml::Table(out)
        },
    }
}

// ---------------------------------------------------------------------------------------
// Laws
// ---------------------------------------------------------------------------------------

/// No name stands twice in a table.
pub open spec fn names_once(entries: Seq<(Seq<char>, TomlView)>) -> bool {
    forall|i: int, j: int|
        0 <= i < j < entries.len() ==> (#[trigger] entries[i]).0 != (#[trigger] entries[j]).0
}

proof fn lemma_got(entries: Seq<(Seq<char>, TomlView)>, i: int)
    requires
        names_once(entries),
        0 <= i < entries.len(),
    ensures
        place(entries, entries[i].0, 0) == i,
{
    lemma_place(entries, entries[i].0, 0);
}

proof fn lemma_merged_entries(
    below: Seq<(Seq<char>, TomlView)>,
    above: Seq<(Seq<char>, TomlView)>,
    depth: nat,
    n: nat,
    name: Seq<char>,
)
    requires
        depth > 0,
        names_once(below),
        names_once(above),
        n <= above.len(),
    ensures
        names_once(merged_entries(below, above, depth, n)),
        got(merged_entries(below, above, depth, n), name) == match (
            got(below, name),
            got(above.take(n as int), name),
        ) {
            (Some(lower), Some(upper)) => Some(merged(lower, upper, (depth - 1) as nat)),
            (lower, None) => lower,
            (None, upper) => upper,
        },
    decreases n,
{
    let all = merged_entries(below, above, depth, n);
    lemma_place(below, name, 0);
    lemma_place(above.take(n as int), name, 0);
    if n > 0 {
        let m = (n - 1) as nat;
        lemma_merged_entries(below, above, depth, m, name);
        let so_far = merged_entries(below, above, depth, m);
        let (key, value) = above[n - 1];
        lemma_merged_entries(below, above, depth, m, key);
        lemma_place(so_far, key, 0);
        lemma_place(so_far, name, 0);
        lemma_place(all, name, 0);
        lemma_place(above.take(m as int), name, 0);
        lemma_place(above.take(m as int), key, 0);
        lemma_place(above.take(n as int), key, 0);
        lemma_place(below, key, 0);
        let shorter = above.take(m as int);
        let longer = above.take(n as int);
        assert(longer =~= shorter.push((key, value)));
        // The name that comes next is not among those before it.
        assert(got(shorter, key) is None);
        let at = place(so_far, key, 0);
        assert(names_once(all)) by {
            assert forall|i: int, j: int| 0 <= i < j < all.len() implies (#[trigger] all[i]).0 != (
            #[trigger] all[j]).0 by {
                if j < so_far.len() {
                    assert(all[i].0 == so_far[i].0 && all[j].0 == so_far[j].0);
                } else {
                    assert(all[i].0 == so_far[i].0);
                }
            }
        }
        if name == key {
            assert(place(longer, name, 0) == m) by {
                lemma_got(longer, m as int);
            }
            if at < so_far.len() {
                lemma_got(all, at);
            } else {
                lemma_got(all, so_far.len() as int);
            }
        } else {
            assert(got(longer, name) == got(shorter, name)) by {
                let p = place(shorter, name, 0);
                if p < shorter.len() {
                    assert(longer[p] == shorter[p]);
                    lemma_got(longer, p);
                } else {
                    let q = place(longer, name, 0);
                    if q < longer.len() {
                        if q < m {
                            assert(longer[q] == shorter[q]);
                        }
                    }
                }
            }
            assert(got(all, name) == got(so_far, name)) by {
                let p = place(so_far, name, 0);
                if p < so_far.len() {
                    assert(all[p] == so_far[p]);
                    lemma_got(all, p);
                } else {
                    let q = place(all, name, 0);
                    if q < all.len() {
                        if q < so_far.len() {
                            assert(all[q].0 == so_far[q].0);
                        }
                    }
                }
            }
        }
    } else {
        assert(above.take(0).len() == 0);
    }
}

/// Laying one table over another keeps what only one of them names, and lays what both name
/// over one another in turn.
pub proof fn laying_over_keeps_both(
    below: Seq<(Seq<char>, TomlView)>,
    above: Seq<(Seq<char>, TomlView)>,
    depth: nat,
    name: Seq<char>,
)
    requires
        depth > 0,
        names_once(below),
        names_once(above),
    ensures
        in_tree(merged(TomlView::Table(below), TomlView::Table(above), depth), name) == match (
            got(below, name),
            got(above, name),
        ) {
            (Some(lower), Some(upper)) => Some(merged(lower, upper, (depth - 1) as nat)),
            (lower, None) => lower,
            (None, upper) => upper,
        },
{
    lemma_merged_entries(below, above, depth, above.len(), name);
    assert(above.take(above.len() as int) =~= above);
}

/// A value wins over whatever it is laid over, and so does a table over a value.
pub proof fn the_upper_wins(lower: TomlView, upper: TomlView, depth: nat)
    requires
        !(lower is Table && upper is Table),
        !(lower is List && upper is List),
    ensures
        merged(lower, upper, depth) == upper,
{
}

} // verus!
