//! One entry of a TOML file changed, the rest of the file left as it is.

use crate::text::{append_str, string};
use vstd::prelude::*;
use vstd::slice::slice_subrange;

verus! {

/// A value that is written to a file.
#[derive(Debug, PartialEq)]
pub enum Entry {
    Text(String),
    Texts(Vec<String>),
    Switch(bool),
    Number(i64),
}

/// What stands at a path of a file: a table, a value, or one of no kind that is written
/// here.
#[verifier::ext_equal]
pub enum Held {
    Table,
    Text(Seq<char>),
    Texts(Seq<Seq<char>>),
    Switch(bool),
    Number(i64),
    /// A number that is no integer, as it is written.
    Fraction(Seq<char>),
    Other,
}

/// The names that lead to an entry, from the outside in.
pub type Path = Seq<Seq<char>>;

/// What a file holds, path by path: itself at the empty path, and under a table what each
/// of its names leads to. A table written on one line is a table like any other.
pub type Contents = Map<Path, Held>;

impl DeepView for Entry {
    type V = Held;

    open spec fn deep_view(&self) -> Held {
        match self {
            Entry::Text(text) => Held::Text(text@),
            Entry::Texts(texts) => Held::Texts(texts.deep_view()),
            Entry::Switch(on) => Held::Switch(*on),
            Entry::Number(number) => Held::Number(*number),
        }
    }
}

#[verifier::external_type_specification]
#[verifier::external_body]
pub struct ExItem(toml_edit::Item);

#[verifier::external_type_specification]
#[verifier::external_body]
pub struct ExItemValue(toml_edit::Value);

#[verifier::external_type_specification]
#[verifier::external_body]
pub struct ExDocumentMut(toml_edit::DocumentMut);

/// What an item of a document holds.
pub uninterp spec fn item_contents(item: toml_edit::Item) -> Map<Seq<Seq<char>>, Held>;

/// What a document holds.
pub uninterp spec fn document_contents(
    document: toml_edit::DocumentMut,
) -> Map<Seq<Seq<char>>, Held>;

/// What a value is, to be written.
pub uninterp spec fn value_held(value: toml_edit::Value) -> Held;

/// How the number of a JSON text is written as a float, where the text is one.
pub uninterp spec fn float_text(number: Seq<char>) -> Option<Seq<char>>;

/// How an item is written: the names of a table in the order they stand in, each with what
/// stands round it, the comments above it included; what stands round the item itself; and
/// how the item itself is spelled, a table by where its head stands among the others.
#[verifier::ext_equal]
pub struct Shown {
    pub names: Seq<(Seq<char>, Seq<char>)>,
    pub around: Seq<char>,
    pub form: Seq<char>,
}

/// How what a file holds is written, path by path.
pub type Layout = Map<Path, Shown>;

/// How an item of a document is written.
pub uninterp spec fn item_layout(item: toml_edit::Item) -> Map<Seq<Seq<char>>, Shown>;

/// How what a document holds is written.
pub uninterp spec fn document_layout(
    document: toml_edit::DocumentMut,
) -> Map<Seq<Seq<char>>, Shown>;

/// What stands behind the last entry of a document.
pub uninterp spec fn document_tail(document: toml_edit::DocumentMut) -> Seq<char>;

/// How what a text holds is written in it.
pub uninterp spec fn layout_of(text: Seq<char>) -> Map<Seq<Seq<char>>, Shown>;

/// What stands behind the last entry of a text.
pub uninterp spec fn tail_of(text: Seq<char>) -> Seq<char>;

/// Whether an item is another one, changed, if at all, only by what is in this file.
pub uninterp spec fn item_kept(before: toml_edit::Item, after: toml_edit::Item) -> bool;

/// Whether a document was read from a text and changed, if at all, only by what is in this
/// file: what stands round its names and values is then white space and comments.
pub uninterp spec fn document_as_read(document: toml_edit::DocumentMut) -> bool;

/// A document as it is written.
pub uninterp spec fn document_text(document: toml_edit::DocumentMut) -> Seq<char>;

/// What a text holds that is read as TOML, or what is wrong with it.
pub uninterp spec fn toml_of(text: Seq<char>) -> Result<Map<Seq<Seq<char>>, Held>, Seq<char>>;

/// What stands under a name.
pub open spec fn under<V>(contents: Map<Path, V>, name: Seq<char>) -> Map<Path, V> {
    Map::new(
        |path: Path| contents.contains_key(seq![name] + path),
        |path: Path| contents[seq![name] + path],
    )
}

/// The same with `inner` under a name, in place of what stood there.
pub open spec fn with_under<V>(
    contents: Map<Path, V>,
    name: Seq<char>,
    inner: Map<Path, V>,
) -> Map<Path, V> {
    Map::new(
        |path: Path|
            if path.len() > 0 && path[0] == name {
                inner.contains_key(path.subrange(1, path.len() as int))
            } else {
                contents.contains_key(path)
            },
        |path: Path|
            if path.len() > 0 && path[0] == name {
                inner[path.subrange(1, path.len() as int)]
            } else {
                contents[path]
            },
    )
}

/// Nothing at all.
pub open spec fn nothing() -> Contents {
    Map::empty()
}

/// One thing with nothing under it.
pub open spec fn only(held: Held) -> Contents {
    Map::empty().insert(Seq::empty(), held)
}

pub open spec fn is_table(contents: Contents) -> bool {
    contents.contains_key(Seq::empty()) && contents[Seq::empty()] == Held::Table
}

pub open spec fn is_there(contents: Contents) -> bool {
    contents.contains_key(Seq::empty())
}

/// How many names may lead to an entry for it to be read.
pub open spec fn most_names() -> nat {
    80
}

/// No entry stands deeper than is read.
pub open spec fn shallow(contents: Contents) -> bool {
    forall|path: Path| #[trigger] contents.contains_key(path) ==> path.len() <= most_names()
}

/// What is read of a file that was written to hold `contents`: all of it, but for tables that
/// hold nothing.
pub open spec fn reads_back(read: Contents, contents: Contents) -> bool {
    &&& forall|path: Path| #[trigger]
        read.contains_key(path) ==> contents.contains_key(path) && contents[path] == read[path]
    &&& forall|path: Path| #[trigger]
        contents.contains_key(path) && contents[path] != Held::Table ==> read.contains_key(path)
}

/// A text that contents are read from again, where they can be.
pub open spec fn reads_as(text: Seq<char>, contents: Contents) -> bool {
    shallow(contents) ==> (toml_of(text) matches Ok(read) && reads_back(read, contents))
}

/// What an item is: nothing, a table or a value.
#[derive(Debug, Clone, Copy, PartialEq, Eq, Structural)]
enum Shape {
    Nothing,
    Table,
    Value,
}

/// The names of a table without one of them.
pub open spec fn names_without(names: Seq<(Seq<char>, Seq<char>)>, name: Seq<char>) -> Seq<
    (Seq<char>, Seq<char>),
> {
    names.filter(|own: (Seq<char>, Seq<char>)| own.0 != name)
}

/// How a table is written once a name is taken out of it: as it was but for the name and what
/// stood under it.
pub open spec fn laid_without(layout: Layout, name: Seq<char>) -> Layout {
    let own = layout[Seq::empty()];
    with_under(
        layout.insert(Seq::empty(), Shown { names: names_without(own.names, name), ..own }),
        name,
        Map::empty(),
    )
}

/// A name is not among those of a table.
pub open spec fn lacks_name(layout: Layout, name: Seq<char>) -> bool {
    forall|i: int|
        0 <= i < layout[Seq::empty()].names.len() ==> (#[trigger] layout[Seq::empty()].names[i]).0
            != name
}

/// A table is written as it was, but for a name that is new at its end.
pub open spec fn name_added(before: Layout, after: Layout, name: Seq<char>) -> bool {
    let own = before[Seq::empty()];
    let new = after[Seq::empty()];
    &&& new.names == own.names.push((name, new.names.last().1))
    &&& after == with_under(
        before.insert(Seq::empty(), Shown { names: new.names, ..own }),
        name,
        under(after, name),
    )
}

/// Whether what an item holds is told apart, and no table.
pub open spec fn is_value(contents: Contents) -> bool {
    is_there(contents) && contents[Seq::empty()] != Held::Table && contents[Seq::empty()]
        != Held::Other
}

/// The `From` impls of `toml_edit::Value` for what is written to a file.
#[verifier::external_body]
pub(crate) fn value_of(entry: &Entry) -> (r: toml_edit::Value)
    ensures
        value_held(r) == entry.deep_view(),
{
    match entry {
        Entry::Text(text) => text.as_str().into(),
        Entry::Texts(texts) => texts.iter().map(String::as_str).collect::<toml_edit::Array>().into(),
        Entry::Switch(on) => (*on).into(),
        Entry::Number(number) => (*number).into(),
    }
}

/// `serde_json::Number::as_f64` of a JSON number, and the `From` impl of `toml_edit::Value`
/// for floats; none where the text is no JSON number.
#[verifier::external_body]
pub(crate) fn fraction(number: &str) -> (r: Option<toml_edit::Value>)
    ensures
        match r {
            Some(value) => float_text(number@) is Some && value_held(value) == Held::Fraction(
                float_text(number@)->0,
            ),
            None => float_text(number@) is None,
        },
{
    let number = serde_json::from_str::<serde_json::Number>(number).ok();
    number.and_then(|number| number.as_f64()).map(toml_edit::Value::from)
}

/// `toml_edit::DocumentMut::from_str`: reads a text as TOML. A document is a table, and only
/// tables have anything under them.
#[verifier::external_body]
pub(crate) fn parse_document(text: &str) -> (r: Result<toml_edit::DocumentMut, String>)
    ensures
        match r {
            Ok(document) => toml_of(text@) == Ok::<Map<Seq<Seq<char>>, Held>, Seq<char>>(
                document_contents(document),
            ) && is_table(document_contents(document)) && document_as_read(document)
                && sound(document_contents(document)) && document_layout(document) == layout_of(
                text@,
            ) && document_tail(document) == tail_of(text@),
            Err(flaw) => toml_of(text@) == Err::<Map<Seq<Seq<char>>, Held>, Seq<char>>(flaw@),
        },
{
    text.parse::<toml_edit::DocumentMut>().map_err(|flaw| flaw.to_string())
}

/// `toml_edit::DocumentMut::to_string`: the document as it is written. A document that was
/// read, and changed here, is read from what it is written as by
/// `toml_edit::DocumentMut::from_str`, where its names do not stand deeper than is read; a
/// table that holds nothing may be left out. A document whose root is no table cannot be
/// written.
#[verifier::external_body]
pub(crate) fn print_document(document: &toml_edit::DocumentMut) -> (r: String)
    requires
        is_table(document_contents(*document)),
    ensures
        r@ == document_text(*document),
        document_as_read(*document) ==> reads_as(r@, document_contents(*document)),
{
    document.to_string()
}

/// `toml_edit::DocumentMut::as_item_mut`: the item the document is.
#[verifier::external_body]
pub(crate) fn root(document: &mut toml_edit::DocumentMut) -> (r: &mut toml_edit::Item)
    ensures
        item_contents(*r) == document_contents(*old(document)),
        document_contents(*final(document)) == item_contents(*final(r)),
        item_layout(*r) == document_layout(*old(document)),
        is_table(document_contents(*old(document))) ==> item_layout(*r).contains_key(Seq::empty()),
        document_layout(*final(document)) == item_layout(*final(r)),
        document_tail(*final(document)) == document_tail(*old(document)),
        item_kept(*r, *r),
        document_as_read(*old(document)) && item_kept(*r, *final(r)) ==> document_as_read(
            *final(document),
        ),
{
    document.as_item_mut()
}

/// The variants of `toml_edit::Item`: a table is one of its own or a value on one line.
#[verifier::external_body]
fn shape(item: &toml_edit::Item) -> (r: Shape)
    ensures
        r == if !is_there(item_contents(*item)) {
            Shape::Nothing
        } else if is_table(item_contents(*item)) {
            Shape::Table
        } else {
            Shape::Value
        },
        r != Shape::Nothing ==> item_layout(*item).contains_key(Seq::empty()),
{
    match item {
        toml_edit::Item::None => Shape::Nothing,
        toml_edit::Item::Table(_) => Shape::Table,
        toml_edit::Item::Value(toml_edit::Value::InlineTable(_)) => Shape::Table,
        toml_edit::Item::Value(_) => Shape::Value,
        toml_edit::Item::ArrayOfTables(_) => Shape::Value,
    }
}

/// `TableLike::get_mut`: what stands under a name of a table, to be changed in place. What
/// this file does to it there is done to the table.
#[verifier::external_body]
fn child<'a>(item: &'a mut toml_edit::Item, name: &str) -> (r: Option<&'a mut toml_edit::Item>)
    requires
        is_table(item_contents(*old(item))),
    ensures
        match r {
            Some(inner) => {
                &&& item_contents(*inner) == under(item_contents(*old(item)), name@)
                &&& item_contents(*final(item)) == with_under(
                    item_contents(*old(item)),
                    name@,
                    item_contents(*final(inner)),
                )
                &&& item_layout(*inner) == under(item_layout(*old(item)), name@)
                &&& item_layout(*final(item)) == with_under(
                    item_layout(*old(item)),
                    name@,
                    item_layout(*final(inner)),
                )
                &&& item_kept(*inner, *inner)
                &&& item_kept(*inner, *final(inner)) ==> forall|first: toml_edit::Item|
                    item_kept(first, *old(item)) ==> #[trigger] item_kept(first, *final(item))
            },
            None => under(item_contents(*old(item)), name@) == nothing() && *final(item) == *old(
                item,
            ),
        },
{
    item.as_table_like_mut().and_then(|table| table.get_mut(name))
}

/// `TableLike::remove`: takes a name out of a table, with all that stands under it; the
/// others stay in their order.
#[verifier::external_body]
pub(crate) fn remove(item: &mut toml_edit::Item, name: &str)
    requires
        is_table(item_contents(*old(item))),
    ensures
        item_contents(*final(item)) == with_under(item_contents(*old(item)), name@, nothing()),
        item_layout(*final(item)) == laid_without(item_layout(*old(item)), name@),
        forall|first: toml_edit::Item|
            item_kept(first, *old(item)) ==> #[trigger] item_kept(first, *final(item)),
{
    item.as_table_like_mut().map(|table| table.remove(name));
}

/// `TableLike::insert` with a new table under a name that is not there: it comes last,
/// and is written only if it ends up holding something. A table on one line takes it as one
/// on the same line.
#[verifier::external_body]
fn add_table(item: &mut toml_edit::Item, name: &str)
    requires
        is_table(item_contents(*old(item))),
        lacks_name(item_layout(*old(item)), name@),
    ensures
        item_contents(*final(item)) == with_under(
            item_contents(*old(item)),
            name@,
            only(Held::Table),
        ),
        name_added(item_layout(*old(item)), item_layout(*final(item)), name@),
        forall|first: toml_edit::Item|
            item_kept(first, *old(item)) ==> #[trigger] item_kept(first, *final(item)),
{
    let mut table = toml_edit::Table::new();
    table.set_implicit(true);
    item.as_table_like_mut().map(|like| like.insert(name, toml_edit::Item::Table(table)));
}

/// `TableLike::insert` with a value under a name that is not there: it comes last.
#[verifier::external_body]
fn insert(item: &mut toml_edit::Item, name: &str, value: &toml_edit::Value)
    requires
        is_table(item_contents(*old(item))),
        lacks_name(item_layout(*old(item)), name@),
    ensures
        item_contents(*final(item)) == with_under(
            item_contents(*old(item)),
            name@,
            only(value_held(*value)),
        ),
        name_added(item_layout(*old(item)), item_layout(*final(item)), name@),
        forall|first: toml_edit::Item|
            item_kept(first, *old(item)) ==> #[trigger] item_kept(first, *final(item)),
{
    item.as_table_like_mut().map(|table| table.insert(name, toml_edit::value(value.clone())));
}

/// An item assigned in its place, with what stood round it, by `toml_edit::Value::decor`,
/// round the new one, where it was a value.
#[verifier::external_body]
fn replace(item: &mut toml_edit::Item, value: &toml_edit::Value)
    requires
        is_there(item_contents(*old(item))),
    ensures
        item_contents(*final(item)) == only(value_held(*value)),
        item_layout(*final(item)).contains_key(Seq::empty()),
        is_value(item_contents(*old(item))) ==> item_layout(*final(item))[Seq::empty()].around
            == item_layout(*old(item))[Seq::empty()].around,
        forall|first: toml_edit::Item|
            item_kept(first, *old(item)) ==> #[trigger] item_kept(first, *final(item)),
{
    let mut value = value.clone();
    item.as_value().map(|old| *value.decor_mut() = old.decor().clone());
    *item = toml_edit::Item::Value(value);
}

/// `TableLike::is_empty`: whether no name of a table leads anywhere.
#[verifier::external_body]
fn is_empty(item: &toml_edit::Item) -> (r: bool)
    requires
        is_table(item_contents(*item)),
    ensures
        r == (item_contents(*item) == only(Held::Table)),
{
    item.as_table_like().is_some_and(|table| table.is_empty())
}

// ---------------------------------------------------------------------------------------
// Changing one entry
// ---------------------------------------------------------------------------------------

/// What the next name of a path is put under: the table that stands there already. Where
/// nothing does it is a new one, and so where a value gives way to it.
pub open spec fn opened(inner: Contents, give_way: bool) -> Contents {
    if !is_there(inner) || (give_way && !is_table(inner)) {
        only(Held::Table)
    } else {
        inner
    }
}

/// The contents with an entry at the end of a path of tables. A value on the way gives way
/// to a table below the first name, where `give_way` says so; else the name behind it is
/// what has no table to stand in.
pub open spec fn with_entry(
    contents: Contents,
    names: Path,
    last: Seq<char>,
    held: Held,
    give_way: bool,
    first: bool,
) -> Result<Contents, Seq<char>>
    decreases names.len(),
{
    if names.len() == 0 {
        if is_table(contents) {
            Ok(with_under(contents, last, only(held)))
        } else {
            Err(last)
        }
    } else if !is_table(contents) {
        Err(names[0])
    } else {
        match with_entry(
            opened(under(contents, names[0]), give_way && !first),
            names.subrange(1, names.len() as int),
            last,
            held,
            give_way,
            false,
        ) {
            Ok(inner) => Ok(with_under(contents, names[0], inner)),
            Err(name) => Err(name),
        }
    }
}

/// The contents without the entry at the end of a path of tables, nor any table left empty
/// above it.
pub open spec fn without_entry(contents: Contents, names: Path, last: Seq<char>) -> Contents
    decreases names.len(),
{
    if names.len() == 0 {
        with_under(contents, last, nothing())
    } else {
        let inner = under(contents, names[0]);
        if !is_table(inner) {
            contents
        } else {
            let rest = without_entry(inner, names.subrange(1, names.len() as int), last);
            with_under(
                contents,
                names[0],
                if rest == only(Held::Table) {
                    nothing()
                } else {
                    rest
                },
            )
        }
    }
}

/// A table is written as it was, but for what stands under one of its names.
pub open spec fn same_but_under(before: Layout, after: Layout, name: Seq<char>) -> bool {
    after == with_under(before, name, under(after, name))
}

/// How a table is written once an entry has been put at the end of a path of tables: a table
/// that is gone through, and a value that is replaced, stand where they stood, with the
/// comments round them; a name that is new comes last in its table, and so one that a value
/// gave way to. All else is written as it was.
pub open spec fn laid_with(
    before: Layout,
    contents: Contents,
    after: Layout,
    names: Path,
    last: Seq<char>,
    give_way: bool,
    first: bool,
) -> bool
    decreases names.len(),
{
    if names.len() == 0 {
        let inner = under(contents, last);
        if is_there(inner) {
            &&& same_but_under(before, after, last)
            &&& is_value(inner) ==> after[seq![last]].around == before[seq![last]].around
        } else {
            name_added(laid_without(before, last), after, last)
        }
    } else {
        let name = names[0];
        let inner = under(contents, name);
        if !is_there(inner) || (give_way && !first && !is_table(inner)) {
            name_added(laid_without(before, name), after, name)
        } else {
            &&& same_but_under(before, after, name)
            &&& laid_with(
                under(before, name),
                inner,
                under(after, name),
                names.subrange(1, names.len() as int),
                last,
                give_way,
                false,
            )
        }
    }
}

/// How a table is written once the entry at the end of a path of tables, and any table left
/// empty above it, has been taken away: all else as it was.
pub open spec fn laid_pruned(
    layout: Layout,
    contents: Contents,
    names: Path,
    last: Seq<char>,
) -> Layout
    decreases names.len(),
{
    if names.len() == 0 {
        laid_without(layout, last)
    } else {
        let inner = under(contents, names[0]);
        let rest = names.subrange(1, names.len() as int);
        if !is_table(inner) {
            layout
        } else if without_entry(inner, rest, last) == only(Held::Table) {
            laid_without(layout, names[0])
        } else {
            with_under(
                layout,
                names[0],
                laid_pruned(under(layout, names[0]), inner, rest, last),
            )
        }
    }
}

/// Whether `text` is how a document is written that holds `contents`, and is read as one that
/// does.
pub open spec fn writes(text: Seq<char>, contents: Contents) -> bool {
    &&& reads_as(text, contents)
    &&& exists|document: toml_edit::DocumentMut| #[trigger]
        document_text(document) == text && document_contents(document) == contents
}

/// Whether `written` is how a document is written that holds `contents`, with what stood behind
/// the last entry of `text` there still.
pub open spec fn written_as(
    written: Seq<char>,
    text: Seq<char>,
    contents: Contents,
    document: toml_edit::DocumentMut,
) -> bool {
    &&& document_text(document) == written
    &&& document_contents(document) == contents
    &&& document_tail(document) == tail_of(text)
}

/// Why a file could not be changed.
#[derive(Debug, PartialEq)]
pub enum EditError {
    /// A shortcut has at least one key.
    NoKeys,
    /// The file does not read as TOML.
    NotToml { flaw: String },
    /// A name has no table to stand in.
    NoTable { name: String },
}

#[verifier::ext_equal]
pub enum EditErrorView {
    NoKeys,
    NotToml { flaw: Seq<char> },
    NoTable { name: Seq<char> },
}

impl DeepView for EditError {
    type V = EditErrorView;

    open spec fn deep_view(&self) -> EditErrorView {
        match self {
            EditError::NoKeys => EditErrorView::NoKeys,
            EditError::NotToml { flaw } => EditErrorView::NotToml { flaw: flaw@ },
            EditError::NoTable { name } => EditErrorView::NoTable { name: name@ },
        }
    }
}

impl EditErrorView {
    /// The error in words, about the file at `path`.
    pub open spec fn says(self, path: Seq<char>) -> Seq<char> {
        match self {
            EditErrorView::NoKeys => "a shortcut has at least one key"@,
            EditErrorView::NotToml { flaw } => path + " is not valid TOML: "@ + flaw,
            EditErrorView::NoTable { name } => "'"@ + name + "' is not a table in "@ + path,
        }
    }
}

impl EditError {
    /// The error in words, about the file at `path`.
    pub fn says(&self, path: &str) -> (r: String)
        ensures
            r@ == self.deep_view().says(path@),
    {
        let mut words: Vec<char> = Vec::new();
        match self {
            EditError::NoKeys => {
                append_str(&mut words, "a shortcut has at least one key");
            },
            EditError::NotToml { flaw } => {
                append_str(&mut words, path);
                append_str(&mut words, " is not valid TOML: ");
                append_str(&mut words, flaw.as_str());
            },
            EditError::NoTable { name } => {
                append_str(&mut words, "'");
                append_str(&mut words, name.as_str());
                append_str(&mut words, "' is not a table in ");
                append_str(&mut words, path);
            },
        }
        proof {
            assert(words@ =~= self.deep_view().says(path@));
        }
        string(words.as_slice())
    }
}

pub open spec fn texts(names: Seq<String>) -> Path {
    names.map_values(|name: String| name@)
}

pub proof fn lemma_under<V>(contents: Map<Path, V>, name: Seq<char>, inner: Map<Path, V>)
    ensures
        under(with_under(contents, name, inner), name) == inner,
        with_under(contents, name, inner).contains_key(Seq::empty()) == contents.contains_key(
            Seq::empty(),
        ),
        contents.contains_key(Seq::empty()) ==> with_under(contents, name, inner)[Seq::empty()]
            == contents[Seq::empty()],
        forall|other: Map<Path, V>|
            with_under(#[trigger] with_under(contents, name, inner), name, other) == with_under(
                contents,
                name,
                other,
            ),
        with_under(contents, name, under(contents, name)) == contents,
{
    let after = with_under(contents, name, inner);
    assert forall|path: Path| #[trigger] (seq![name] + path).subrange(
        1,
        (seq![name] + path).len() as int,
    ) == path by {
        assert((seq![name] + path).subrange(1, (seq![name] + path).len() as int) =~= path);
    }
    assert forall|path: Path|
        under(after, name).contains_key(path) == inner.contains_key(path) && (inner.contains_key(
            path,
        ) ==> under(after, name)[path] == inner[path]) by {
        let full = seq![name] + path;
        assert(full[0] == name);
        assert(full.subrange(1, full.len() as int) == path);
    }
    assert(under(after, name) =~= inner);
    assert forall|other: Map<Path, V>|
        with_under(#[trigger] with_under(contents, name, inner), name, other) == with_under(
            contents,
            name,
            other,
        ) by {
        assert(with_under(after, name, other) =~= with_under(contents, name, other));
    }
    let same = with_under(contents, name, under(contents, name));
    assert forall|path: Path| #[trigger]
        same.dom().contains(path) == contents.dom().contains(path) by {
        if path.len() > 0 && path[0] == name {
            assert(seq![name] + path.subrange(1, path.len() as int) =~= path);
        }
    }
    assert forall|path: Path| #[trigger] contents.dom().contains(path) implies same[path]
        == contents[path] by {
        if path.len() > 0 && path[0] == name {
            assert(seq![name] + path.subrange(1, path.len() as int) =~= path);
        }
    }
    assert(same.dom() =~= contents.dom());
    assert(same =~= contents);
}

/// A name that was taken out of a table is not among its names.
proof fn lemma_lacks(layout: Layout, name: Seq<char>)
    ensures
        lacks_name(laid_without(layout, name), name),
{
    let names = layout[Seq::empty()].names;
    let keep = |own: (Seq<char>, Seq<char>)| own.0 != name;
    let left = names_without(names, name);
    assert forall|i: int| 0 <= i < left.len() implies (#[trigger] left[i]).0 != name by {
        broadcast use vstd::seq_lib::group_filter_ensures;

        assert(keep(left[i]));
    }
}

/// A name is taken out of a table whatever stands under it.
proof fn lemma_laid_without(layout: Layout, name: Seq<char>, inner: Layout)
    requires
        layout.contains_key(Seq::empty()),
    ensures
        laid_without(with_under(layout, name, inner), name) == laid_without(layout, name),
{
    lemma_under(layout, name, inner);
    assert(laid_without(with_under(layout, name, inner), name) =~= laid_without(layout, name));
}

/// Writes an entry at the end of a path of tables.
#[verifier::rlimit(40)]
pub(crate) fn put(
    item: &mut toml_edit::Item,
    names: &[String],
    last: &str,
    value: &toml_edit::Value,
    give_way: bool,
    first: bool,
) -> (r: Result<(), String>)
    ensures
        match r {
            Ok(()) => with_entry(
                item_contents(*old(item)),
                texts(names@),
                last@,
                value_held(*value),
                give_way,
                first,
            ) == Ok::<Contents, Seq<char>>(item_contents(*final(item))) && laid_with(
                item_layout(*old(item)),
                item_contents(*old(item)),
                item_layout(*final(item)),
                texts(names@),
                last@,
                give_way,
                first,
            ),
            Err(name) => with_entry(
                item_contents(*old(item)),
                texts(names@),
                last@,
                value_held(*value),
                give_way,
                first,
            ) == Err::<Contents, Seq<char>>(name@),
        },
        forall|from: toml_edit::Item|
            item_kept(from, *old(item)) ==> #[trigger] item_kept(from, *final(item)),
    decreases names@.len(),
{
    let ghost before = item_contents(*item);
    let ghost laid = item_layout(*item);
    let ghost path = texts(names@);
    if shape(item) != Shape::Table {
        return Err(
            if names.len() == 0 {
                last.to_string()
            } else {
                names[0].clone()
            },
        );
    }
    if names.len() == 0 {
        proof {
            lemma_under(before, last@, under(before, last@));
            lemma_under(before, last@, nothing());
            lemma_under(laid, last@, under(laid, last@));
        }
        let there: bool = match child(item, last) {
            Some(inner) => shape(inner) != Shape::Nothing,
            None => false,
        };
        assert(there ==> under(laid, last@).contains_key(Seq::empty()));
        if there {
            let ghost mut inside = laid;
            let ghost middle = item_layout(*item);
            match child(item, last) {
                Some(inner) => {
                    replace(inner, value);
                    proof {
                        inside = item_layout(*inner);
                    }
                },
                None => {},
            }
            proof {
                assert(middle == laid);
                lemma_under(laid, last@, inside);
                assert(item_layout(*item) == with_under(laid, last@, inside));
                let path = seq![last@];
                assert(path + Seq::<Seq<char>>::empty() =~= path);
                assert(path.subrange(1, 1) =~= Seq::<Seq<char>>::empty());
                assert(under(laid, last@)[Seq::empty()] == laid[path]);
            }
        } else {
            remove(item, last);
            proof {
                lemma_lacks(laid, last@);
            }
            insert(item, last, value);
        }
        return Ok(());
    }
    let name: &str = names[0].as_str();
    let rest: &[String] = slice_subrange(names, 1, names.len());
    proof {
        assert(texts(rest@) =~= path.subrange(1, path.len() as int));
        lemma_under(before, name@, only(Held::Table));
        lemma_under(before, name@, under(before, name@));
        lemma_under(before, name@, nothing());
        lemma_under(laid, name@, under(laid, name@));
    }
    let there: Shape = match child(item, name) {
        Some(inner) => shape(inner),
        None => Shape::Nothing,
    };
    let fresh: bool = there == Shape::Nothing || (give_way && !first && there == Shape::Value);
    if fresh {
        remove(item, name);
        proof {
            lemma_lacks(laid, name@);
        }
        add_table(item, name);
    }
    let ghost ready = item_contents(*item);
    let ghost ready_laid = item_layout(*item);
    proof {
        assert(under(ready, name@) == opened(under(before, name@), give_way && !first));
        assert(is_there(under(ready, name@)));
        lemma_under(ready_laid, name@, under(ready_laid, name@));
    }
    let ghost mut inside = laid;
    let done: Result<(), String> = match child(item, name) {
        Some(inner) => {
            let done: Result<(), String> = put(inner, rest, last, value, give_way, false);
            proof {
                inside = item_layout(*inner);
            }
            done
        },
        None => {
            proof {
                assert(!is_there(nothing()));
            }
            Err(last.to_string())
        },
    };
    proof {
        let after = item_layout(*item);
        if done is Ok {
            lemma_under(ready_laid, name@, inside);
            assert(after == with_under(ready_laid, name@, inside));
            if fresh {
                let start = laid_without(laid, name@);
                let own = start[Seq::empty()];
                let new = ready_laid[Seq::empty()];
                let base = start.insert(Seq::empty(), Shown { names: new.names, ..own });
                lemma_under(base, name@, under(ready_laid, name@));
                lemma_under(base, name@, inside);
                assert(after == with_under(base, name@, inside));
                assert(after[Seq::empty()] == base[Seq::empty()]);
                assert(name_added(start, after, name@));
            } else {
                assert(ready_laid == laid);
                assert(same_but_under(laid, after, name@));
            }
        }
    }
    done
}

/// Drops an entry and every table left empty above it: taking your last shortcut away
/// leaves no `[keys.all]` behind to wonder about. A table written on one line, as
/// `space = { h = "…" }`, is a table like any other here.
pub(crate) fn prune(item: &mut toml_edit::Item, names: &[String], last: &str)
    requires
        is_table(item_contents(*old(item))),
        item_layout(*old(item)).contains_key(Seq::empty()),
    ensures
        item_contents(*final(item)) == without_entry(
            item_contents(*old(item)),
            texts(names@),
            last@,
        ),
        is_table(item_contents(*final(item))),
        item_layout(*final(item)) == laid_pruned(
            item_layout(*old(item)),
            item_contents(*old(item)),
            texts(names@),
            last@,
        ),
        forall|from: toml_edit::Item|
            item_kept(from, *old(item)) ==> #[trigger] item_kept(from, *final(item)),
    decreases names@.len(),
{
    let ghost before = item_contents(*item);
    let ghost path = texts(names@);
    if names.len() == 0 {
        proof {
            lemma_under(before, last@, nothing());
        }
        remove(item, last);
        return ;
    }
    let name: &str = names[0].as_str();
    let rest: &[String] = slice_subrange(names, 1, names.len());
    proof {
        assert(texts(rest@) =~= path.subrange(1, path.len() as int));
        lemma_under(before, name@, under(before, name@));
        lemma_under(
            before,
            name@,
            without_entry(under(before, name@), texts(rest@), last@),
        );
        lemma_under(before, name@, nothing());
    }
    let ghost laid = item_layout(*item);
    let ghost mut inside = laid;
    let empty: bool = match child(item, name) {
        Some(inner) => {
            let empty: bool = if shape(inner) == Shape::Table {
                prune(inner, rest, last);
                is_empty(inner)
            } else {
                false
            };
            proof {
                inside = item_layout(*inner);
            }
            empty
        },
        None => false,
    };
    proof {
        lemma_under(laid, name@, under(laid, name@));
        if is_table(under(before, name@)) {
            assert(item_layout(*item) == with_under(laid, name@, inside));
            lemma_laid_without(laid, name@, inside);
        }
    }
    if empty {
        remove(item, name);
    }
}

// ---------------------------------------------------------------------------------------
// What changing one entry keeps
// ---------------------------------------------------------------------------------------

/// Only tables have anything under them.
pub open spec fn sound(contents: Contents) -> bool {
    forall|path: Path|
        #![trigger contents.contains_key(path)]
        contents.contains_key(path) && path.len() > 0 ==> contents.contains_key(path.drop_last())
            && contents[path.drop_last()] == Held::Table
}

/// Whether one path leads to another, or is it.
pub open spec fn leads_to(path: Path, other: Path) -> bool {
    path.len() <= other.len() && other.subrange(0, path.len() as int) == path
}

/// Neither of two paths leads to the other.
pub open spec fn apart(path: Path, other: Path) -> bool {
    !leads_to(path, other) && !leads_to(other, path)
}

proof fn lemma_sound_under(contents: Contents, name: Seq<char>)
    requires
        sound(contents),
    ensures
        sound(under(contents, name)),
{
    let inner = under(contents, name);
    assert forall|path: Path|
        #![trigger inner.contains_key(path)]
        inner.contains_key(path) && path.len() > 0 implies inner.contains_key(path.drop_last())
        && inner[path.drop_last()] == Held::Table by {
        let full = seq![name] + path;
        assert(contents.contains_key(full));
        assert(full.drop_last() =~= seq![name] + path.drop_last());
    }
}

proof fn lemma_sound_root(contents: Contents, path: Path)
    requires
        sound(contents),
        contents.contains_key(path),
        path.len() > 0,
    ensures
        is_table(contents),
    decreases path.len(),
{
    if path.len() > 1 {
        lemma_sound_root(contents, path.drop_last());
    } else {
        assert(path.drop_last() =~= Seq::empty());
    }
}

/// Two paths that begin with one name, and of which neither leads to the other, part
/// further on.
proof fn lemma_part_further(path: Path, other: Path)
    requires
        path.len() > 0,
        other.len() > 0,
        path[0] == other[0],
        !leads_to(path, other),
        !leads_to(other, path),
    ensures
        !leads_to(path.subrange(1, path.len() as int), other.subrange(1, other.len() as int)),
        !leads_to(other.subrange(1, other.len() as int), path.subrange(1, path.len() as int)),
        path.len() > 1,
        other.len() > 1,
{
    let rest = path.subrange(1, path.len() as int);
    let other_rest = other.subrange(1, other.len() as int);
    assert(path =~= seq![path[0]] + rest);
    assert(other =~= seq![path[0]] + other_rest);
    if path.len() == 1 {
        assert(other.subrange(0, 1) =~= path);
    }
    if other.len() == 1 {
        assert(path.subrange(0, 1) =~= other);
    }
    if leads_to(rest, other_rest) {
        assert(other.subrange(0, path.len() as int) =~= seq![path[0]] + other_rest.subrange(
            0,
            rest.len() as int,
        ));
    }
    if leads_to(other_rest, rest) {
        assert(path.subrange(0, other.len() as int) =~= seq![path[0]] + rest.subrange(
            0,
            other_rest.len() as int,
        ));
    }
}

proof fn lemma_sound_opened(inner: Contents, give_way: bool)
    requires
        sound(inner),
    ensures
        sound(opened(inner, give_way)),
        forall|path: Path|
            path.len() > 0 ==> #[trigger] opened(inner, give_way).contains_key(path)
                == inner.contains_key(path) && opened(inner, give_way)[path] == inner[path] || (
            !opened(inner, give_way).contains_key(path) && !inner.contains_key(path)),
{
    let open = opened(inner, give_way);
    if !is_there(inner) || (give_way && !is_table(inner)) {
        assert forall|path: Path| path.len() > 0 implies !(#[trigger] inner.contains_key(path)) by {
            if inner.contains_key(path) {
                lemma_sound_root(inner, path);
            }
        }
    }
}

/// An entry that was written is there.
pub proof fn an_entry_written_is_there(
    contents: Contents,
    names: Path,
    last: Seq<char>,
    held: Held,
    give_way: bool,
    first: bool,
)
    ensures
        with_entry(contents, names, last, held, give_way, first) matches Ok(after)
            ==> after.contains_key(names.push(last)) && after[names.push(last)] == held,
    decreases names.len(),
{
    let path = names.push(last);
    if let Ok(after) = with_entry(contents, names, last, held, give_way, first) {
        let rest = path.subrange(1, path.len() as int);
        if names.len() == 0 {
            assert(path[0] == last);
            assert(rest =~= Seq::empty());
        } else {
            let names_rest = names.subrange(1, names.len() as int);
            an_entry_written_is_there(
                opened(under(contents, names[0]), give_way && !first),
                names_rest,
                last,
                held,
                give_way,
                false,
            );
            assert(path[0] == names[0]);
            assert(rest =~= names_rest.push(last));
        }
    }
}

/// What a file was written to hold is read from it.
pub proof fn what_was_written_is_read(text: Seq<char>, contents: Contents, path: Path)
    requires
        writes(text, contents),
        shallow(contents),
        contents.contains_key(path),
        contents[path] != Held::Table,
    ensures
        toml_of(text) matches Ok(read) && read.contains_key(path) && read[path] == contents[path],
{
}

/// What a file was not written to hold is not read from it.
pub proof fn what_was_not_written_is_not_read(text: Seq<char>, contents: Contents, path: Path)
    requires
        writes(text, contents),
        shallow(contents),
        !contents.contains_key(path),
    ensures
        toml_of(text) matches Ok(read) && !read.contains_key(path),
{
}

/// Writing an entry leaves everything else in the file as it is: all that does not stand
/// under it, nor lead to it.
pub proof fn writing_leaves_the_rest_alone(
    contents: Contents,
    names: Path,
    last: Seq<char>,
    held: Held,
    give_way: bool,
    first: bool,
    other: Path,
)
    requires
        sound(contents),
        !leads_to(names.push(last), other),
        !leads_to(other, names.push(last)),
    ensures
        with_entry(contents, names, last, held, give_way, first) matches Ok(after) ==> (
        after.contains_key(other) == contents.contains_key(other) && (contents.contains_key(other)
            ==> after[other] == contents[other])),
    decreases names.len(),
{
    let path = names.push(last);
    if let Ok(after) = with_entry(contents, names, last, held, give_way, first) {
        if other.len() == 0 {
            assert(path.subrange(0, 0) =~= other);
        } else if other[0] == path[0] {
            lemma_part_further(path, other);
            let rest = other.subrange(1, other.len() as int);
            let names_rest = names.subrange(1, names.len() as int);
            let inner = under(contents, names[0]);
            assert(path.subrange(1, path.len() as int) =~= names_rest.push(last));
            lemma_sound_under(contents, names[0]);
            lemma_sound_opened(inner, give_way && !first);
            writing_leaves_the_rest_alone(
                opened(inner, give_way && !first),
                names_rest,
                last,
                held,
                give_way,
                false,
                rest,
            );
            assert(seq![names[0]] + rest =~= other);
        }
    }
}

/// A line is as it was.
pub open spec fn same_line(before: Layout, after: Layout, path: Path) -> bool {
    &&& after.contains_key(path) == before.contains_key(path)
    &&& before.contains_key(path) ==> after[path] == before[path]
}

/// Writing an entry leaves every other line as it was: all that does not stand under it, nor
/// lead to it, is spelled as it was, with the same white space and comments round it.
pub proof fn writing_leaves_the_other_lines(
    before: Layout,
    contents: Contents,
    after: Layout,
    names: Path,
    last: Seq<char>,
    give_way: bool,
    first: bool,
    other: Path,
)
    requires
        sound(contents),
        laid_with(before, contents, after, names, last, give_way, first),
        contents.contains_key(other),
        !leads_to(names.push(last), other),
        !leads_to(other, names.push(last)),
    ensures
        same_line(before, after, other),
    decreases names.len(),
{
    let path = names.push(last);
    if other.len() == 0 {
        assert(path.subrange(0, 0) =~= other);
    } else if other[0] == path[0] {
        lemma_part_further(path, other);
        let rest = other.subrange(1, other.len() as int);
        let names_rest = names.subrange(1, names.len() as int);
        let name = names[0];
        let inner = under(contents, name);
        assert(path.subrange(1, path.len() as int) =~= names_rest.push(last));
        assert(seq![name] + rest =~= other);
        lemma_sound_under(contents, name);
        assert(inner.contains_key(rest));
        if !is_there(inner) || (give_way && !first && !is_table(inner)) {
            lemma_sound_root(inner, rest);
        } else {
            writing_leaves_the_other_lines(
                under(before, name),
                inner,
                under(after, name),
                names_rest,
                last,
                give_way,
                false,
                rest,
            );
            assert(under(before, name).contains_key(rest) == before.contains_key(other));
            assert(under(after, name).contains_key(rest) == after.contains_key(other));
            if before.contains_key(other) {
                assert(under(before, name)[rest] == before[other]);
                assert(under(after, name)[rest] == after[other]);
            }
        }
    }
}

/// A file that an entry was written to is one still in which only tables have anything under
/// them.
pub proof fn lemma_sound_with(
    contents: Contents,
    names: Path,
    last: Seq<char>,
    held: Held,
    give_way: bool,
    first: bool,
)
    requires
        sound(contents),
    ensures
        with_entry(contents, names, last, held, give_way, first) matches Ok(after) ==> sound(after),
    decreases names.len(),
{
    if let Ok(after) = with_entry(contents, names, last, held, give_way, first) {
        if names.len() == 0 {
            assert(sound(only(held)));
            lemma_sound_with_under(contents, last, only(held));
        } else {
            let inner = under(contents, names[0]);
            let open = opened(inner, give_way && !first);
            let rest = names.subrange(1, names.len() as int);
            lemma_sound_under(contents, names[0]);
            lemma_sound_opened(inner, give_way && !first);
            lemma_sound_with(open, rest, last, held, give_way, false);
            let written = with_entry(open, rest, last, held, give_way, false)->Ok_0;
            lemma_sound_with_under(contents, names[0], written);
        }
    }
}

proof fn lemma_sound_with_under(contents: Contents, name: Seq<char>, inner: Contents)
    requires
        sound(contents),
        sound(inner),
        is_table(contents),
    ensures
        sound(with_under(contents, name, inner)),
{
    let after = with_under(contents, name, inner);
    assert forall|path: Path|
        #![trigger after.contains_key(path)]
        after.contains_key(path) && path.len() > 0 implies after.contains_key(path.drop_last())
        && after[path.drop_last()] == Held::Table by {
        let up = path.drop_last();
        if path[0] == name {
            let rest = path.subrange(1, path.len() as int);
            if path.len() == 1 {
                assert(up =~= Seq::empty());
            } else {
                assert(inner.contains_key(rest));
                assert(rest.drop_last() =~= up.subrange(1, up.len() as int));
                assert(up[0] == name);
            }
        } else {
            assert(contents.contains_key(path));
            if path.len() > 1 {
                assert(up[0] == path[0]);
            }
        }
    }
}

/// Writing an entry leaves the order of the names it does not write: in every table on the way
/// to it they stand as they stood, each with the comments above it, and the table's own head
/// is as it was. A name that is there already keeps its place and its comments, unless what
/// stands under it gives way to a table: that one comes last, as a new one does.
pub proof fn writing_leaves_the_order(
    before: Layout,
    contents: Contents,
    after: Layout,
    names: Path,
    last: Seq<char>,
    give_way: bool,
    first: bool,
    n: nat,
)
    requires
        laid_with(before, contents, after, names, last, give_way, first),
        n <= names.len(),
        before.contains_key(names.take(n as int)),
        is_table(contents),
        forall|k: int|
            #![trigger names.take(k)]
            0 <= k <= n ==> contents.contains_key(names.take(k)) && contents[names.take(k)]
                == Held::Table,
    ensures
        ({
            let table = names.take(n as int);
            let name = names.push(last)[n as int];
            let entry = table.push(name);
            let yields = give_way && (n > 0 || !first) && n < names.len() && contents[entry]
                != Held::Table;
            &&& after.contains_key(table)
            &&& after[table].around == before[table].around
            &&& after[table].form == before[table].form
            &&& contents.contains_key(entry) && !yields ==> after[table].names
                == before[table].names
            &&& !contents.contains_key(entry) || yields ==> after[table].names == names_without(
                before[table].names,
                name,
            ).push((name, after[table].names.last().1))
        }),
    decreases names.len(),
{
    let table = names.take(n as int);
    let name = names.push(last)[n as int];
    if n == 0 {
        assert(table =~= Seq::empty());
        assert(table.push(name) =~= seq![name] + Seq::empty());
        lemma_under(before, name, under(after, name));
        let start = laid_without(before, name);
        let base = start.insert(
            Seq::empty(),
            Shown { names: after[Seq::empty()].names, ..start[Seq::empty()] },
        );
        lemma_under(base, name, under(after, name));
        lemma_under(
            before.insert(
                Seq::empty(),
                Shown {
                    names: names_without(before[Seq::empty()].names, name),
                    ..before[Seq::empty()]
                },
            ),
            name,
            Map::empty(),
        );
    } else {
        let head = names[0];
        let rest = names.subrange(1, names.len() as int);
        let inner = under(contents, head);
        assert(names.take(1) =~= seq![head] + Seq::empty());
        assert(is_table(inner));
        assert(seq![head] + rest.take(n - 1) =~= table);
        assert forall|k: int| #![trigger rest.take(k)] 0 <= k <= n - 1 implies inner.contains_key(
            rest.take(k),
        ) && inner[rest.take(k)] == Held::Table by {
            assert(seq![head] + rest.take(k) =~= names.take(k + 1));
        }
        assert(under(before, head).contains_key(rest.take(n - 1)));
        writing_leaves_the_order(
            under(before, head),
            inner,
            under(after, head),
            rest,
            last,
            give_way,
            false,
            (n - 1) as nat,
        );
        assert(rest.push(last)[n - 1] == name);
        assert(seq![head] + rest.take(n - 1).push(name) =~= table.push(name));
        assert(seq![head] + rest.take(n - 1) =~= table);
    }
}

/// Taking an entry away leaves every other line as it was.
pub proof fn taking_away_leaves_the_other_lines(
    layout: Layout,
    contents: Contents,
    names: Path,
    last: Seq<char>,
    other: Path,
)
    requires
        contents.contains_key(other),
        !leads_to(names.push(last), other),
        !leads_to(other, names.push(last)),
    ensures
        same_line(layout, laid_pruned(layout, contents, names, last), other),
    decreases names.len(),
{
    let path = names.push(last);
    if other.len() == 0 {
        assert(path.subrange(0, 0) =~= other);
    } else if other[0] == path[0] {
        lemma_part_further(path, other);
        let rest = other.subrange(1, other.len() as int);
        let names_rest = names.subrange(1, names.len() as int);
        let inner = under(contents, names[0]);
        assert(path.subrange(1, path.len() as int) =~= names_rest.push(last));
        assert(seq![names[0]] + rest =~= other);
        assert(inner.contains_key(rest));
        if is_table(inner) {
            taking_away_leaves_the_rest_alone(inner, names_rest, last, rest);
            taking_away_leaves_the_other_lines(
                under(layout, names[0]),
                inner,
                names_rest,
                last,
                rest,
            );
            assert(without_entry(inner, names_rest, last).contains_key(rest));
            assert(!only(Held::Table).contains_key(rest));
            assert(under(layout, names[0]).contains_key(rest) == layout.contains_key(other));
            if layout.contains_key(other) {
                assert(under(layout, names[0])[rest] == layout[other]);
            }
        }
    }
}

/// Taking an entry away leaves everything else in the file as it is: all that does not
/// stand under it, nor lead to it.
pub proof fn taking_away_leaves_the_rest_alone(
    contents: Contents,
    names: Path,
    last: Seq<char>,
    other: Path,
)
    requires
        !leads_to(names.push(last), other),
        !leads_to(other, names.push(last)),
    ensures
        without_entry(contents, names, last).contains_key(other) == contents.contains_key(other),
        contents.contains_key(other) ==> without_entry(contents, names, last)[other]
            == contents[other],
    decreases names.len(),
{
    let path = names.push(last);
    if other.len() == 0 {
        assert(path.subrange(0, 0) =~= other);
    } else if other[0] == path[0] {
        lemma_part_further(path, other);
        let rest = other.subrange(1, other.len() as int);
        let names_rest = names.subrange(1, names.len() as int);
        let inner = under(contents, names[0]);
        assert(path.subrange(1, path.len() as int) =~= names_rest.push(last));
        assert(seq![names[0]] + rest =~= other);
        if is_table(inner) {
            taking_away_leaves_the_rest_alone(inner, names_rest, last, rest);
        }
    }
}

/// An entry that was taken away is gone, and all that stood under it.
pub proof fn an_entry_taken_away_is_gone(
    contents: Contents,
    names: Path,
    last: Seq<char>,
    other: Path,
)
    requires
        sound(contents),
        leads_to(names.push(last), other),
    ensures
        !without_entry(contents, names, last).contains_key(other),
    decreases names.len(),
{
    let path = names.push(last);
    let rest = other.subrange(1, other.len() as int);
    assert(other[0] == path[0]) by {
        assert(other.subrange(0, path.len() as int)[0] == other[0]);
    }
    if names.len() > 0 {
        let inner = under(contents, names[0]);
        let names_rest = names.subrange(1, names.len() as int);
        assert(path.subrange(1, path.len() as int) =~= names_rest.push(last));
        assert(rest.subrange(0, path.len() - 1) =~= other.subrange(0, path.len() as int).subrange(
            1,
            path.len() as int,
        ));
        assert(seq![names[0]] + rest =~= other);
        lemma_sound_under(contents, names[0]);
        if is_table(inner) {
            an_entry_taken_away_is_gone(inner, names_rest, last, rest);
        } else if contents.contains_key(other) {
            assert(inner.contains_key(rest));
            lemma_sound_root(inner, rest);
        }
    }
}

/// Taking away what was written under a name nothing stood under gives the file back as it
/// was.
pub proof fn taking_away_undoes_writing(
    contents: Contents,
    names: Path,
    last: Seq<char>,
    held: Held,
    give_way: bool,
    first: bool,
)
    requires
        is_table(contents),
        under(contents, names.push(last)[0]) == nothing(),
    ensures
        with_entry(contents, names, last, held, give_way, first) matches Ok(after)
            ==> without_entry(after, names, last) == contents,
    decreases names.len(),
{
    if let Ok(after) = with_entry(contents, names, last, held, give_way, first) {
        if names.len() == 0 {
            lemma_under(contents, last, only(held));
            lemma_under(contents, last, nothing());
        } else {
            let name = names[0];
            let rest = names.subrange(1, names.len() as int);
            let fresh = only(Held::Table);
            assert(names.push(last)[0] == name);
            assert(opened(under(contents, name), give_way && !first) == fresh);
            let next = rest.push(last)[0];
            assert(under(fresh, next) =~= nothing()) by {
                assert forall|path: Path| !(#[trigger] under(fresh, next).contains_key(path)) by {
                    assert((seq![next] + path).len() > 0);
                }
            }
            taking_away_undoes_writing(fresh, rest, last, held, give_way, false);
            if let Ok(inner) = with_entry(fresh, rest, last, held, give_way, false) {
                lemma_under(contents, name, inner);
                lemma_under(contents, name, nothing());
                lemma_written_table(fresh, rest, last, held, give_way, false);
            }
        }
    }
}

/// A table that an entry was written to is a table still.
pub proof fn lemma_written_table(
    contents: Contents,
    names: Path,
    last: Seq<char>,
    held: Held,
    give_way: bool,
    first: bool,
)
    requires
        is_table(contents),
    ensures
        with_entry(contents, names, last, held, give_way, first) matches Ok(after) ==> is_table(
            after,
        ),
{
}

} // verus!
