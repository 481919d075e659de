//! A session as it is kept: a file with its cursor as `{ file = "a.rs", line = 3, column = 0 }`
//! and a split as `{ split = "vertical", panes = [...] }`.

use crate::session::{lemma_pane, lemma_split_view, pane_view, panes_view, Pane, PaneView, Session,
    SessionView, Split};
use crate::text::same_str;
use crate::toml_tree::{alike, entries_view, find_entry, got, in_tree, items_view, lemma_alike,
    lemma_entry, lemma_item, lemma_list_view, lemma_place, lemma_table_view, lists_tables,
    most_levels, on_a_line, place, plain_names, print_toml, read_toml, readable, reads_as,
    toml_view, tree_of, tree_text, Toml, TomlView};
use vstd::prelude::*;

verus! {

// ---------------------------------------------------------------------------------------
// Writing
// ---------------------------------------------------------------------------------------

pub type Entries = Seq<(Seq<char>, TomlView)>;

pub open spec fn split_name(split: Split) -> Seq<char> {
    match split {
        Split::Vertical => "vertical"@,
        Split::Horizontal => "horizontal"@,
    }
}

pub open spec fn numbers(sizes: Seq<u32>) -> TomlView {
    TomlView::List(Seq::new(sizes.len(), |i: int| TomlView::Number(sizes[i] as i64)))
}

pub open spec fn texts(files: Seq<Seq<char>>) -> TomlView {
    TomlView::List(Seq::new(files.len(), |i: int| TomlView::Text(files[i])))
}

/// Whether every number of a pane can be written.
pub open spec fn pane_fits(pane: PaneView) -> bool
    decreases pane,
{
    match pane {
        PaneView::Split { split, sizes, panes } => forall|i: int|
            0 <= i < panes.len() ==> pane_fits(#[trigger] panes[i]),
        PaneView::View { file, line, column, top } => line <= i64::MAX && column <= i64::MAX && (
        top matches Some(top) ==> top <= i64::MAX),
    }
}

/// A pane as it is kept. Even shares and an unknown scroll are left out rather than written
/// as nothing.
pub open spec fn written_pane(pane: PaneView) -> TomlView
    decreases pane,
{
    match pane {
        PaneView::Split { split, sizes, panes } => {
            let kind: Entries = seq![("split"@, TomlView::Text(split_name(split)))];
            let shares: Entries = if sizes.len() > 0 {
                seq![("sizes"@, numbers(sizes))]
            } else {
                Seq::empty()
            };
            let inner = TomlView::List(
                Seq::new(
                    panes.len(),
                    |i: int|
                        if 0 <= i < panes.len() {
                            written_pane(panes[i])
                        } else {
                            arbitrary()
                        },
                ),
            );
            TomlView::Table(kind + shares + seq![("panes"@, inner)])
        },
        PaneView::View { file, line, column, top } => {
            let place: Entries = seq![
                ("file"@, TomlView::Text(file)),
                ("line"@, TomlView::Number(line as i64)),
                ("column"@, TomlView::Number(column as i64)),
            ];
            TomlView::Table(
                match top {
                    Some(top) => place + seq![("top"@, TomlView::Number(top as i64))],
                    None => place,
                },
            )
        },
    }
}

pub open spec fn written_panes(panes: Seq<PaneView>) -> Seq<TomlView> {
    Seq::new(panes.len(), |i: int| written_pane(panes[i]))
}

proof fn lemma_written_split(split: Split, sizes: Seq<u32>, panes: Seq<PaneView>)
    ensures
        ({
            let kind: Entries = seq![("split"@, TomlView::Text(split_name(split)))];
            let shares: Entries = if sizes.len() > 0 {
                seq![("sizes"@, numbers(sizes))]
            } else {
                Seq::empty()
            };
            written_pane(PaneView::Split { split, sizes, panes }) == TomlView::Table(
                kind + shares + seq![("panes"@, TomlView::List(written_panes(panes)))],
            )
        }),
{
    let kind: Entries = seq![("split"@, TomlView::Text(split_name(split)))];
    let shares: Entries = if sizes.len() > 0 {
        seq![("sizes"@, numbers(sizes))]
    } else {
        Seq::empty()
    };
    let all = written_pane(PaneView::Split { split, sizes, panes })->Table_0;
    if let TomlView::List(seen) = all.last().1 {
        assert(seen =~= written_panes(panes));
    }
    assert(all =~= kind + shares + seq![("panes"@, TomlView::List(written_panes(panes)))]);
}

/// Whether a session can be written.
pub open spec fn session_fits(session: SessionView) -> bool {
    session.layout matches Some(pane) ==> pane_fits(pane)
}

/// A session as it is kept.
pub open spec fn written(session: SessionView) -> TomlView {
    let files: Entries = seq![("files"@, texts(session.files))];
    let focused: Entries = match session.focused {
        Some(file) => seq![("focused"@, TomlView::Text(file))],
        None => Seq::empty(),
    };
    let layout: Entries = match session.layout {
        Some(pane) => seq![("layout"@, written_pane(pane))],
        None => Seq::empty(),
    };
    TomlView::Table(files + focused + layout)
}

fn push_entry(entries: &mut Vec<(String, Toml)>, name: &str, value: Toml)
    ensures
        entries_view(final(entries)@) == entries_view(old(entries)@).push(
            (name@, toml_view(value)),
        ),
{
    let ghost before = entries@;
    entries.push((name.to_string(), value));
    proof {
        assert(entries_view(entries@) =~= entries_view(before).push((name@, toml_view(value))));
    }
}

fn write_numbers(sizes: &Vec<u32>) -> (r: Toml)
    ensures
        toml_view(r) == numbers(sizes@),
{
    let mut items: Vec<Toml> = Vec::new();
    let mut n: usize = 0;
    while n < sizes.len()
        invariant
            n <= sizes@.len(),
            items@.len() == n,
            forall|i: int|
                0 <= i < n ==> toml_view(#[trigger] items@[i]) == TomlView::Number(sizes@[i] as i64),
        decreases sizes@.len() - n,
    {
        items.push(Toml::Number(sizes[n] as i64));
        n = n + 1;
    }
    proof {
        lemma_list_view(items);
        assert(numbers(sizes@)->List_0 =~= items_view(items@));
    }
    Toml::List(items)
}

fn write_texts(files: &Vec<String>) -> (r: Toml)
    ensures
        toml_view(r) == texts(files.deep_view()),
{
    let mut items: Vec<Toml> = Vec::new();
    let mut n: usize = 0;
    while n < files.len()
        invariant
            n <= files@.len(),
            items@.len() == n,
            forall|i: int|
                0 <= i < n ==> toml_view(#[trigger] items@[i]) == TomlView::Text(files@[i]@),
        decreases files@.len() - n,
    {
        items.push(Toml::Text(files[n].clone()));
        n = n + 1;
    }
    proof {
        lemma_list_view(items);
        assert(texts(files.deep_view())->List_0 =~= items_view(items@));
    }
    Toml::List(items)
}

fn write_pane(pane: &Pane) -> (r: Option<Toml>)
    ensures
        r is Some == pane_fits(pane_view(*pane)),
        r matches Some(tree) ==> toml_view(tree) == written_pane(pane_view(*pane)),
    decreases *pane,
{
    match pane {
        Pane::Split { split, sizes, panes } => {
            let ghost inner = panes_view(panes@);
            proof {
                lemma_split_view(*split, *sizes, *panes);
                lemma_written_split(*split, sizes@, inner);
            }
            let mut items: Vec<Toml> = Vec::new();
            let mut n: usize = 0;
            while n < panes.len()
                invariant
                    n <= panes@.len(),
                    *pane == (Pane::Split { split: *split, sizes: *sizes, panes: *panes }),
                    pane_view(*pane) == (PaneView::Split {
                        split: *split,
                        sizes: sizes@,
                        panes: inner,
                    }),
                    inner == panes_view(panes@),
                    items@.len() == n,
                    forall|i: int| 0 <= i < n ==> pane_fits(#[trigger] inner[i]),
                    forall|i: int|
                        0 <= i < n ==> toml_view(#[trigger] items@[i]) == written_pane(inner[i]),
                decreases panes@.len() - n,
            {
                proof {
                    lemma_pane(*pane, n as int);
                    assert(inner[n as int] == pane_view(panes@[n as int]));
                }
                match write_pane(&panes[n]) {
                    Some(tree) => {
                        items.push(tree);
                    },
                    None => {
                        return None;
                    },
                }
                n = n + 1;
            }
            let mut entries: Vec<(String, Toml)> = Vec::new();
            let kind: &str = match split {
                Split::Vertical => "vertical",
                Split::Horizontal => "horizontal",
            };
            proof {
                assert(entries_view(entries@) =~= Seq::empty());
            }
            push_entry(&mut entries, "split", Toml::Text(kind.to_string()));
            let ghost first: Entries = seq![("split"@, TomlView::Text(split_name(*split)))];
            proof {
                assert(entries_view(entries@) =~= first);
            }
            if sizes.len() > 0 {
                push_entry(&mut entries, "sizes", write_numbers(sizes));
                proof {
                    assert(entries_view(entries@) =~= first + seq![("sizes"@, numbers(sizes@))]);
                }
            } else {
                proof {
                    assert(entries_view(entries@) =~= first + Seq::<(Seq<char>, TomlView)>::empty());
                }
            }
            proof {
                lemma_list_view(items);
                assert(items_view(items@) =~= written_panes(inner));
            }
            let ghost before = entries_view(entries@);
            push_entry(&mut entries, "panes", Toml::List(items));
            proof {
                assert(entries_view(entries@) =~= before + seq![
                    ("panes"@, TomlView::List(written_panes(inner))),
                ]);
                lemma_table_view(entries);
            }
            Some(Toml::Table(entries))
        },
        Pane::View { file, line, column, top } => {
            let most: u64 = 0x7fff_ffff_ffff_ffff;
            if *line as u64 > most || *column as u64 > most {
                return None;
            }
            let mut entries: Vec<(String, Toml)> = Vec::new();
            proof {
                assert(entries_view(entries@) =~= Seq::empty());
            }
            push_entry(&mut entries, "file", Toml::Text(file.clone()));
            push_entry(&mut entries, "line", Toml::Number(*line as i64));
            push_entry(&mut entries, "column", Toml::Number(*column as i64));
            let ghost place: Entries = seq![
                ("file"@, TomlView::Text(file@)),
                ("line"@, TomlView::Number(*line as i64)),
                ("column"@, TomlView::Number(*column as i64)),
            ];
            proof {
                assert(entries_view(entries@) =~= place);
            }
            if let Some(top) = top {
                if *top as u64 > most {
                    return None;
                }
                push_entry(&mut entries, "top", Toml::Number(*top as i64));
                proof {
                    assert(entries_view(entries@) =~= place + seq![
                        ("top"@, TomlView::Number(*top as i64)),
                    ]);
                }
            }
            proof {
                lemma_table_view(entries);
            }
            Some(Toml::Table(entries))
        },
    }
}

/// A session as a tree; none where a number is too large to be written.
pub fn to_tree(session: &Session) -> (r: Option<Toml>)
    ensures
        r is Some == session_fits(session.deep_view()),
        r matches Some(tree) ==> toml_view(tree) == written(session.deep_view()) && tree is Table,
{
    let mut entries: Vec<(String, Toml)> = Vec::new();
    proof {
        assert(entries_view(entries@) =~= Seq::empty());
    }
    push_entry(&mut entries, "files", write_texts(&session.files));
    let ghost files: Entries = seq![("files"@, texts(session.files.deep_view()))];
    proof {
        assert(entries_view(entries@) =~= files);
    }
    if let Some(file) = &session.focused {
        push_entry(&mut entries, "focused", Toml::Text(file.clone()));
        proof {
            assert(entries_view(entries@) =~= files + seq![("focused"@, TomlView::Text(file@))]);
        }
    } else {
        proof {
            assert(entries_view(entries@) =~= files + Seq::<(Seq<char>, TomlView)>::empty());
        }
    }
    let ghost before = entries_view(entries@);
    if let Some(pane) = &session.layout {
        match write_pane(pane) {
            Some(tree) => {
                push_entry(&mut entries, "layout", tree);
                proof {
                    assert(entries_view(entries@) =~= before + seq![
                        ("layout"@, written_pane(pane_view(*pane))),
                    ]);
                }
            },
            None => {
                return None;
            },
        }
    } else {
        proof {
            assert(before =~= before + Seq::<(Seq<char>, TomlView)>::empty());
        }
    }
    proof {
        lemma_table_view(entries);
    }
    Some(Toml::Table(entries))
}

// ---------------------------------------------------------------------------------------
// Reading
// ---------------------------------------------------------------------------------------

pub open spec fn as_text(value: Option<TomlView>) -> Option<Seq<char>> {
    match value {
        Some(TomlView::Text(text)) => Some(text),
        _ => None,
    }
}

/// A number that counts something.
pub open spec fn as_count(value: Option<TomlView>) -> Option<usize> {
    match value {
        Some(TomlView::Number(number)) => if 0 <= number <= usize::MAX {
            Some(number as usize)
        } else {
            None
        },
        _ => None,
    }
}

pub open spec fn as_split(value: Option<TomlView>) -> Option<Split> {
    match value {
        Some(TomlView::Text(text)) => if text == "vertical"@ {
            Some(Split::Vertical)
        } else if text == "horizontal"@ {
            Some(Split::Horizontal)
        } else {
            None
        },
        _ => None,
    }
}

/// Whether a value is a share of a split.
pub open spec fn is_share(value: TomlView) -> bool {
    value matches TomlView::Number(number) && 0 <= number <= u32::MAX
}

pub open spec fn share_of(value: TomlView) -> u32 {
    value->Number_0 as u32
}

/// The shares of a split: none where they are not written.
pub open spec fn as_sizes(value: Option<TomlView>) -> Option<Seq<u32>> {
    match value {
        None => Some(Seq::empty()),
        Some(TomlView::List(items)) => if forall|i: int|
            0 <= i < items.len() ==> is_share(#[trigger] items[i]) {
            Some(Seq::new(items.len(), |i: int| share_of(items[i])))
        } else {
            None
        },
        _ => None,
    }
}

/// One view, as it is kept. A session written before the scroll was kept has none.
pub open spec fn read_view(tree: TomlView) -> Option<PaneView> {
    let top = in_tree(tree, "top"@);
    match (
        as_text(in_tree(tree, "file"@)),
        as_count(in_tree(tree, "line"@)),
        as_count(in_tree(tree, "column"@)),
    ) {
        (Some(file), Some(line), Some(column)) => if top is None {
            Some(PaneView::View { file, line, column, top: None })
        } else {
            match as_count(top) {
                Some(top) => Some(PaneView::View { file, line, column, top: Some(top) }),
                None => None,
            }
        },
        _ => None,
    }
}

/// A pane as it is kept: a split, or else one view.
pub open spec fn read_pane(tree: TomlView) -> Option<PaneView>
    decreases tree,
{
    match tree {
        TomlView::Table(entries) => {
            let at = place(entries, "panes"@, 0);
            match (as_split(got(entries, "split"@)), as_sizes(got(entries, "sizes"@))) {
                (Some(split), Some(sizes)) => if 0 <= at < entries.len() {
                    match entries[at].1 {
                        TomlView::List(items) => if forall|i: int|
                            0 <= i < items.len() ==> read_pane(#[trigger] items[i]) is Some {
                            Some(
                                PaneView::Split {
                                    split,
                                    sizes,
                                    panes: Seq::new(
                                        items.len(),
                                        |i: int|
                                            if 0 <= i < items.len() {
                                                read_pane(items[i])->0
                                            } else {
                                                arbitrary()
                                            },
                                    ),
                                },
                            )
                        } else {
                            read_view(tree)
                        },
                        _ => read_view(tree),
                    }
                } else {
                    read_view(tree)
                },
                _ => read_view(tree),
            }
        },
        _ => None,
    }
}

/// Whether a value is a list of texts.
pub open spec fn are_texts(items: Seq<TomlView>) -> bool {
    forall|i: int| 0 <= i < items.len() ==> (#[trigger] items[i]) is Text
}

pub open spec fn as_texts(value: Option<TomlView>) -> Option<Seq<Seq<char>>> {
    match value {
        Some(TomlView::List(items)) => if are_texts(items) {
            Some(Seq::new(items.len(), |i: int| items[i]->Text_0))
        } else {
            None
        },
        _ => None,
    }
}

/// A session as it is kept.
pub open spec fn read_session(tree: TomlView) -> Option<SessionView> {
    let focused = in_tree(tree, "focused"@);
    let layout = in_tree(tree, "layout"@);
    match as_texts(in_tree(tree, "files"@)) {
        None => None,
        Some(files) => if (focused is Some && as_text(focused) is None) || (layout is Some
            && read_pane(layout->0) is None) {
            None
        } else {
            Some(
                SessionView {
                    files,
                    focused: as_text(focused),
                    layout: match layout {
                        Some(layout) => read_pane(layout),
                        None => None,
                    },
                },
            )
        },
    }
}

fn take_text(entries: &Vec<(String, Toml)>, name: &str) -> (r: Option<String>)
    ensures
        r.deep_view() == as_text(got(entries_view(entries@), name@)),
{
    let at: usize = find_entry(entries, name);
    if at < entries.len() {
        if let Toml::Text(text) = &entries[at].1 {
            return Some(text.clone());
        }
    }
    None
}

fn take_count(entries: &Vec<(String, Toml)>, name: &str) -> (r: Option<usize>)
    ensures
        r == as_count(got(entries_view(entries@), name@)),
{
    let at: usize = find_entry(entries, name);
    if at < entries.len() {
        if let Toml::Number(number) = &entries[at].1 {
            if *number >= 0 && *number as u64 <= usize::MAX as u64 {
                return Some(*number as usize);
            }
        }
    }
    None
}

fn has_entry(entries: &Vec<(String, Toml)>, name: &str) -> (r: bool)
    ensures
        r == (got(entries_view(entries@), name@) is Some),
{
    find_entry(entries, name) < entries.len()
}

fn take_view(entries: &Vec<(String, Toml)>) -> (r: Option<Pane>)
    ensures
        match r {
            Some(pane) => read_view(TomlView::Table(entries_view(entries@))) == Some(
                pane_view(pane),
            ),
            None => read_view(TomlView::Table(entries_view(entries@))) is None,
        },
{
    let file: String = match take_text(entries, "file") {
        Some(file) => file,
        None => {
            return None;
        },
    };
    let line: usize = match take_count(entries, "line") {
        Some(line) => line,
        None => {
            return None;
        },
    };
    let column: usize = match take_count(entries, "column") {
        Some(column) => column,
        None => {
            return None;
        },
    };
    if !has_entry(entries, "top") {
        return Some(Pane::View { file, line, column, top: None });
    }
    match take_count(entries, "top") {
        Some(top) => Some(Pane::View { file, line, column, top: Some(top) }),
        None => None,
    }
}

fn take_split(entries: &Vec<(String, Toml)>) -> (r: Option<Split>)
    ensures
        r == as_split(got(entries_view(entries@), "split"@)),
{
    match take_text(entries, "split") {
        Some(text) => {
            if same_str(text.as_str(), "vertical") {
                Some(Split::Vertical)
            } else if same_str(text.as_str(), "horizontal") {
                Some(Split::Horizontal)
            } else {
                None
            }
        },
        None => None,
    }
}

fn take_sizes(entries: &Vec<(String, Toml)>) -> (r: Option<Vec<u32>>)
    ensures
        match r {
            Some(sizes) => as_sizes(got(entries_view(entries@), "sizes"@)) == Some(sizes@),
            None => as_sizes(got(entries_view(entries@), "sizes"@)) is None,
        },
{
    let at: usize = find_entry(entries, "sizes");
    let mut sizes: Vec<u32> = Vec::new();
    if at >= entries.len() {
        proof {
            assert(sizes@ =~= Seq::empty());
        }
        return Some(sizes);
    }
    let items: &Vec<Toml> = match &entries[at].1 {
        Toml::List(items) => items,
        _ => {
            return None;
        },
    };
    proof {
        lemma_list_view(*items);
    }
    let ghost all = items_view(items@);
    let ghost held = got(entries_view(entries@), "sizes"@);
    let mut n: usize = 0;
    while n < items.len()
        invariant
            n <= items@.len(),
            all == items_view(items@),
            held == Some(TomlView::List(all)),
            held == got(entries_view(entries@), "sizes"@),
            sizes@.len() == n,
            forall|i: int| 0 <= i < n ==> is_share(#[trigger] all[i]),
            forall|i: int| 0 <= i < n ==> #[trigger] sizes@[i] == share_of(all[i]),
        decreases items@.len() - n,
    {
        proof {
            assert(all[n as int] == toml_view(items@[n as int]));
        }
        match &items[n] {
            Toml::Number(number) => {
                if *number < 0 || *number > 0xffff_ffff {
                    return None;
                }
                sizes.push(*number as u32);
            },
            _ => {
                return None;
            },
        }
        n = n + 1;
    }
    proof {
        assert(sizes@ =~= Seq::new(all.len(), |i: int| share_of(all[i])));
    }
    Some(sizes)
}

proof fn lemma_read_split(entries: Entries, items: Seq<TomlView>, panes: Seq<PaneView>)
    requires
        got(entries, "panes"@) == Some(TomlView::List(items)),
        as_split(got(entries, "split"@)) is Some,
        as_sizes(got(entries, "sizes"@)) is Some,
        panes.len() == items.len(),
        forall|i: int| 0 <= i < items.len() ==> read_pane(#[trigger] items[i]) == Some(panes[i]),
    ensures
        read_pane(TomlView::Table(entries)) == Some(
            PaneView::Split {
                split: as_split(got(entries, "split"@))->0,
                sizes: as_sizes(got(entries, "sizes"@))->0,
                panes,
            },
        ),
{
    lemma_place(entries, "panes"@, 0);
    if let Some(PaneView::Split { panes: seen, .. }) = read_pane(TomlView::Table(entries)) {
        assert(seen =~= panes);
    }
}

fn take_pane(tree: &Toml) -> (r: Option<Pane>)
    ensures
        match r {
            Some(pane) => read_pane(toml_view(*tree)) == Some(pane_view(pane)),
            None => read_pane(toml_view(*tree)) is None,
        },
    decreases *tree,
{
    let entries: &Vec<(String, Toml)> = match tree {
        Toml::Table(entries) => entries,
        _ => {
            return None;
        },
    };
    proof {
        lemma_table_view(*entries);
        lemma_place(entries_view(entries@), "panes"@, 0);
    }
    let ghost all = entries_view(entries@);
    let split: Split = match take_split(entries) {
        Some(split) => split,
        None => {
            return take_view(entries);
        },
    };
    let sizes: Vec<u32> = match take_sizes(entries) {
        Some(sizes) => sizes,
        None => {
            return take_view(entries);
        },
    };
    let at: usize = find_entry(entries, "panes");
    if at >= entries.len() {
        return take_view(entries);
    }
    let items: &Vec<Toml> = match &entries[at].1 {
        Toml::List(items) => items,
        _ => {
            return take_view(entries);
        },
    };
    proof {
        lemma_list_view(*items);
    }
    let ghost inner = items_view(items@);
    let mut panes: Vec<Pane> = Vec::new();
    let mut n: usize = 0;
    while n < items.len()
        invariant
            n <= items@.len(),
            at < entries@.len(),
            *tree == Toml::Table(*entries),
            entries@[at as int].1 == Toml::List(*items),
            inner == items_view(items@),
            all == entries_view(entries@),
            toml_view(*tree) == TomlView::Table(all),
            at == place(all, "panes"@, 0),
            all[at as int].1 == TomlView::List(inner),
            as_split(got(all, "split"@)) == Some(split),
            as_sizes(got(all, "sizes"@)) == Some(sizes@),
            panes@.len() == n,
            forall|i: int|
                0 <= i < n ==> read_pane(inner[i]) == Some(pane_view(#[trigger] panes@[i])),
        decreases items@.len() - n,
    {
        proof {
            lemma_entry(*tree, at as int);
            lemma_item(entries@[at as int].1, n as int);
            assert(inner[n as int] == toml_view(items@[n as int]));
        }
        match take_pane(&items[n]) {
            Some(pane) => {
                panes.push(pane);
            },
            None => {
                proof {
                    assert(read_pane(inner[n as int]) is None);
                }
                return take_view(entries);
            },
        }
        n = n + 1;
    }
    proof {
        lemma_split_view(split, sizes, panes);
        assert forall|i: int| 0 <= i < inner.len() implies read_pane(#[trigger] inner[i]) == Some(
            panes_view(panes@)[i],
        ) by {
            assert(panes_view(panes@)[i] == pane_view(panes@[i]));
        }
        lemma_read_split(all, inner, panes_view(panes@));
    }
    Some(Pane::Split { split, sizes, panes })
}

fn take_texts(entries: &Vec<(String, Toml)>, name: &str) -> (r: Option<Vec<String>>)
    ensures
        match r {
            Some(list) => as_texts(got(entries_view(entries@), name@)) == Some(list.deep_view()),
            None => as_texts(got(entries_view(entries@), name@)) is None,
        },
{
    let at: usize = find_entry(entries, name);
    if at >= entries.len() {
        return None;
    }
    let items: &Vec<Toml> = match &entries[at].1 {
        Toml::List(items) => items,
        _ => {
            return None;
        },
    };
    proof {
        lemma_list_view(*items);
    }
    let ghost all = items_view(items@);
    let mut list: Vec<String> = Vec::new();
    let mut n: usize = 0;
    while n < items.len()
        invariant
            n <= items@.len(),
            all == items_view(items@),
            got(entries_view(entries@), name@) == Some(TomlView::List(all)),
            list@.len() == n,
            forall|i: int| 0 <= i < n ==> (#[trigger] all[i]) is Text,
            forall|i: int| 0 <= i < n ==> (#[trigger] list@[i])@ == all[i]->Text_0,
        decreases items@.len() - n,
    {
        proof {
            assert(all[n as int] == toml_view(items@[n as int]));
        }
        match &items[n] {
            Toml::Text(text) => {
                list.push(text.clone());
            },
            _ => {
                return None;
            },
        }
        n = n + 1;
    }
    proof {
        assert(list.deep_view() =~= Seq::new(all.len(), |i: int| all[i]->Text_0));
    }
    Some(list)
}

/// The session a tree holds; none where it holds none.
pub fn from_tree(tree: &Toml) -> (r: Option<Session>)
    ensures
        match r {
            Some(session) => read_session(toml_view(*tree)) == Some(session.deep_view()),
            None => read_session(toml_view(*tree)) is None,
        },
{
    let entries: &Vec<(String, Toml)> = match tree {
        Toml::Table(entries) => entries,
        _ => {
            return None;
        },
    };
    proof {
        lemma_table_view(*entries);
    }
    let files: Vec<String> = match take_texts(entries, "files") {
        Some(files) => files,
        None => {
            return None;
        },
    };
    let focused: Option<String> = take_text(entries, "focused");
    if focused.is_none() && has_entry(entries, "focused") {
        return None;
    }
    let at: usize = find_entry(entries, "layout");
    let layout: Option<Pane> = if at < entries.len() {
        match take_pane(&entries[at].1) {
            Some(pane) => Some(pane),
            None => {
                return None;
            },
        }
    } else {
        None
    };
    Some(Session { files, focused, layout })
}

// ---------------------------------------------------------------------------------------
// Texts
// ---------------------------------------------------------------------------------------

/// Why a session could not be read.
#[derive(Debug)]
pub enum SessionError {
    /// It is no TOML, and what is wrong with it.
    Flaw(String),
    /// It is TOML, and no session.
    NoSession,
}

/// The session a text holds.
pub fn read_text(text: &str) -> (r: Result<Session, SessionError>)
    ensures
        match tree_of(text@) {
            Err(flaw) => r is Err && r->Err_0 is Flaw && (r->Err_0)->Flaw_0@ == flaw,
            Ok(tree) => match read_session(tree) {
                Some(session) => r is Ok && (r->Ok_0).deep_view() == session,
                None => r == Err::<Session, SessionError>(SessionError::NoSession),
            },
        },
{
    match read_toml(text) {
        Err(flaw) => Err(SessionError::Flaw(flaw)),
        Ok(tree) => match from_tree(&tree) {
            Some(session) => Ok(session),
            None => Err(SessionError::NoSession),
        },
    }
}

/// A text that a session is read from.
pub open spec fn reads_back(text: Seq<char>, session: SessionView) -> bool {
    tree_of(text) matches Ok(tree) && read_session(tree) == Some(session)
}

/// A session as a text, which it is read from again unless its splits stand in one another
/// deeper than is read; none where a number is too large to be written.
pub fn write_text(session: &Session) -> (r: Option<String>)
    ensures
        match r {
            Some(text) => {
                &&& session_fits(session.deep_view())
                &&& text@ == tree_text(written(session.deep_view()))
                &&& session_nests(session.deep_view()) ==> reads_back(text@, session.deep_view())
            },
            None => !session_fits(session.deep_view()),
        },
{
    match to_tree(session) {
        Some(tree) => {
            let text: String = print_toml(&tree);
            proof {
                if session_nests(session.deep_view()) {
                    a_text_of_a_session_is_that_session(text@, session.deep_view());
                }
            }
            Some(text)
        },
        None => None,
    }
}

// ---------------------------------------------------------------------------------------
// What is written reads back
// ---------------------------------------------------------------------------------------

proof fn lemma_names()
    ensures
        "split"@ != "sizes"@ && "split"@ != "panes"@ && "sizes"@ != "panes"@,
        "file"@ != "line"@ && "file"@ != "column"@ && "file"@ != "top"@ && "line"@ != "column"@
            && "line"@ != "top"@ && "column"@ != "top"@,
        "split"@ != "file"@ && "split"@ != "line"@ && "split"@ != "column"@ && "split"@ != "top"@,
        "files"@ != "focused"@ && "files"@ != "layout"@ && "focused"@ != "layout"@,
        "vertical"@ != "horizontal"@,
{
    reveal_strlit("split");
    reveal_strlit("sizes");
    reveal_strlit("panes");
    reveal_strlit("file");
    reveal_strlit("line");
    reveal_strlit("column");
    reveal_strlit("top");
    reveal_strlit("files");
    reveal_strlit("focused");
    reveal_strlit("layout");
    reveal_strlit("vertical");
    reveal_strlit("horizontal");
    assert("split"@[1] == 'p' && "sizes"@[1] == 'i' && "panes"@[0] == 'p' && "split"@[0] == 's'
        && "sizes"@[0] == 's');
    assert("file"@[0] == 'f' && "line"@[0] == 'l');
    assert("split"@.len() == 5 && "file"@.len() == 4 && "line"@.len() == 4 && "column"@.len() == 6
        && "top"@.len() == 3);
    assert("files"@.len() == 5 && "focused"@.len() == 7 && "layout"@.len() == 6);
    assert("vertical"@.len() == 8 && "horizontal"@.len() == 10);
}

proof fn lemma_pane_reads_back(pane: PaneView)
    requires
        pane_fits(pane),
    ensures
        read_pane(written_pane(pane)) == Some(pane),
    decreases pane,
{
    lemma_names();
    reveal_with_fuel(place, 6);
    match pane {
        PaneView::Split { split, sizes, panes } => {
            lemma_written_split(split, sizes, panes);
            let entries = written_pane(pane)->Table_0;
            let items = written_panes(panes);
            assert forall|i: int| 0 <= i < items.len() implies read_pane(#[trigger] items[i])
                == Some(panes[i]) by {
                assert(pane_fits(panes[i]));
                lemma_pane_reads_back(panes[i]);
            }
            if sizes.len() > 0 {
                assert(entries =~= seq![
                    ("split"@, TomlView::Text(split_name(split))),
                    ("sizes"@, numbers(sizes)),
                    ("panes"@, TomlView::List(items)),
                ]);
                assert(got(entries, "sizes"@) == Some(numbers(sizes)));
                let shares = numbers(sizes)->List_0;
                assert(Seq::new(shares.len(), |i: int| share_of(shares[i])) =~= sizes);
            } else {
                assert(entries =~= seq![
                    ("split"@, TomlView::Text(split_name(split))),
                    ("panes"@, TomlView::List(items)),
                ]);
                assert(got(entries, "sizes"@) is None);
                assert(sizes =~= Seq::empty());
            }
            lemma_read_split(entries, items, panes);
        },
        PaneView::View { file, line, column, top } => {
            let entries = written_pane(pane)->Table_0;
            match top {
                Some(top) => {
                    assert(entries =~= seq![
                        ("file"@, TomlView::Text(file)),
                        ("line"@, TomlView::Number(line as i64)),
                        ("column"@, TomlView::Number(column as i64)),
                        ("top"@, TomlView::Number(top as i64)),
                    ]);
                },
                None => {
                    assert(entries =~= seq![
                        ("file"@, TomlView::Text(file)),
                        ("line"@, TomlView::Number(line as i64)),
                        ("column"@, TomlView::Number(column as i64)),
                    ]);
                },
            }
            assert(got(entries, "split"@) is None);
        },
    }
}

/// A session reads back as it was written, splits and all.
pub proof fn a_session_reads_back_as_written(session: SessionView)
    requires
        session_fits(session),
    ensures
        read_session(written(session)) == Some(session),
{
    lemma_names();
    reveal_with_fuel(place, 5);
    let entries = written(session)->Table_0;
    let list = texts(session.files);
    match (session.focused, session.layout) {
        (Some(file), Some(pane)) => {
            assert(entries =~= seq![
                ("files"@, list),
                ("focused"@, TomlView::Text(file)),
                ("layout"@, written_pane(pane)),
            ]);
        },
        (Some(file), None) => {
            assert(entries =~= seq![("files"@, list), ("focused"@, TomlView::Text(file))]);
        },
        (None, Some(pane)) => {
            assert(entries =~= seq![("files"@, list), ("layout"@, written_pane(pane))]);
        },
        (None, None) => {
            assert(entries =~= seq![("files"@, list)]);
        },
    }
    let items = list->List_0;
    assert(Seq::new(items.len(), |i: int| items[i]->Text_0) =~= session.files);
    if let Some(pane) = session.layout {
        lemma_pane_reads_back(pane);
    }
}

// ---------------------------------------------------------------------------------------
// What is written is read from its text
// ---------------------------------------------------------------------------------------

/// No more than `n` splits stand in one another.
pub open spec fn nests(pane: PaneView, n: nat) -> bool
    decreases n,
{
    match pane {
        PaneView::Split { split, sizes, panes } => forall|i: int|
            0 <= i < panes.len() ==> n > 0 && nests(#[trigger] panes[i], (n - 1) as nat),
        PaneView::View { .. } => true,
    }
}

/// Whether the splits of a session stand in one another no deeper than what is written is
/// read.
pub open spec fn session_nests(session: SessionView) -> bool {
    session.layout matches Some(pane) ==> nests(pane, (most_levels() - 1) as nat)
}

/// What names lead to in trees that hold the same.
pub open spec fn both_alike(a: Option<TomlView>, b: Option<TomlView>) -> bool {
    match (a, b) {
        (Some(one), Some(other)) => alike(one, other),
        (None, None) => true,
        _ => false,
    }
}

proof fn lemma_scalars(a: Option<TomlView>, b: Option<TomlView>)
    requires
        both_alike(a, b),
    ensures
        as_text(a) == as_text(b),
        as_count(a) == as_count(b),
        as_split(a) == as_split(b),
{
}

proof fn lemma_lists(a: Option<TomlView>, b: Option<TomlView>)
    requires
        both_alike(a, b),
    ensures
        as_sizes(a) == as_sizes(b),
        as_texts(a) == as_texts(b),
{
    if let (Some(TomlView::List(x)), Some(TomlView::List(y))) = (a, b) {
        let (one, other) = (a->0, b->0);
        assert(alike(one, other));
        assert(one->List_0 == x && other->List_0 == y);
        assert(x.len() == y.len());
        assert(forall|i: int| 0 <= i < x.len() ==> alike(#[trigger] x[i], y[i]));
        assert forall|i: int|
            0 <= i < x.len() && (is_share(#[trigger] x[i]) || x[i] is Text || is_share(y[i])
                || y[i] is Text) implies x[i] == y[i] by {
            assert(alike(x[i], y[i]));
        }
        if forall|i: int| 0 <= i < x.len() ==> is_share(#[trigger] x[i]) {
            assert forall|i: int| 0 <= i < y.len() implies is_share(#[trigger] y[i]) by {
                assert(is_share(x[i]));
            }
            assert(x =~= y);
        } else if forall|i: int| 0 <= i < y.len() ==> is_share(#[trigger] y[i]) {
            assert forall|i: int| 0 <= i < x.len() implies is_share(#[trigger] x[i]) by {
                assert(is_share(y[i]));
            }
        }
        if are_texts(x) {
            assert forall|i: int| 0 <= i < y.len() implies (#[trigger] y[i]) is Text by {
                assert(x[i] is Text);
            }
            assert(x =~= y);
        } else if are_texts(y) {
            assert forall|i: int| 0 <= i < x.len() implies (#[trigger] x[i]) is Text by {
                assert(y[i] is Text);
            }
        }
    }
}

proof fn lemma_same_view(x: Entries, y: Entries)
    requires
        alike(TomlView::Table(x), TomlView::Table(y)),
    ensures
        read_view(TomlView::Table(x)) == read_view(TomlView::Table(y)),
{
    lemma_alike(x, y, "file"@);
    lemma_alike(x, y, "line"@);
    lemma_alike(x, y, "column"@);
    lemma_alike(x, y, "top"@);
    lemma_scalars(got(x, "file"@), got(y, "file"@));
    lemma_scalars(got(x, "line"@), got(y, "line"@));
    lemma_scalars(got(x, "column"@), got(y, "column"@));
    lemma_scalars(got(x, "top"@), got(y, "top"@));
}

/// Trees that hold the same are read as the same pane.
proof fn lemma_same_pane(a: TomlView, b: TomlView)
    requires
        alike(a, b),
    ensures
        read_pane(a) == read_pane(b),
    decreases a,
{
    if let (TomlView::Table(x), TomlView::Table(y)) = (a, b) {
        assert(a == TomlView::Table(x) && b == TomlView::Table(y));
        lemma_same_view(x, y);
        lemma_alike(x, y, "split"@);
        lemma_alike(x, y, "sizes"@);
        lemma_alike(x, y, "panes"@);
        lemma_scalars(got(x, "split"@), got(y, "split"@));
        lemma_lists(got(x, "sizes"@), got(y, "sizes"@));
        lemma_place(x, "panes"@, 0);
        lemma_place(y, "panes"@, 0);
        let i = place(x, "panes"@, 0);
        let j = place(y, "panes"@, 0);
        if i < x.len() && j < y.len() {
            if let (TomlView::List(one), TomlView::List(other)) = (x[i].1, y[j].1) {
                assert(alike(x[i].1, y[j].1));
                assert(x[i].1->List_0 == one && y[j].1->List_0 == other);
                assert(one.len() == other.len());
                assert(forall|k: int| 0 <= k < one.len() ==> alike(#[trigger] one[k], other[k]));
                assert forall|k: int| 0 <= k < one.len() implies read_pane(#[trigger] one[k])
                    == read_pane(other[k]) by {
                    assert(alike(one[k], other[k]));
                    lemma_same_pane(one[k], other[k]);
                }
                lemma_same_split(x, y, one, other);
            }
        }
    }
}

proof fn lemma_same_split(x: Entries, y: Entries, one: Seq<TomlView>, other: Seq<TomlView>)
    requires
        got(x, "panes"@) == Some(TomlView::List(one)),
        got(y, "panes"@) == Some(TomlView::List(other)),
        as_split(got(x, "split"@)) == as_split(got(y, "split"@)),
        as_sizes(got(x, "sizes"@)) == as_sizes(got(y, "sizes"@)),
        read_view(TomlView::Table(x)) == read_view(TomlView::Table(y)),
        one.len() == other.len(),
        forall|k: int| 0 <= k < one.len() ==> read_pane(#[trigger] one[k]) == read_pane(other[k]),
    ensures
        read_pane(TomlView::Table(x)) == read_pane(TomlView::Table(y)),
{
    lemma_place(x, "panes"@, 0);
    lemma_place(y, "panes"@, 0);
    if forall|k: int| 0 <= k < one.len() ==> read_pane(#[trigger] one[k]) is Some {
        assert forall|k: int| 0 <= k < other.len() implies read_pane(
            #[trigger] other[k],
        ) is Some by {
            assert(read_pane(one[k]) is Some);
        }
        match (as_split(got(x, "split"@)), as_sizes(got(x, "sizes"@))) {
            (Some(split), Some(sizes)) => {
                let a = read_pane(TomlView::Table(x))->0;
                let b = read_pane(TomlView::Table(y))->0;
                if let (
                    PaneView::Split { panes: left, .. },
                    PaneView::Split { panes: right, .. },
                ) = (a, b) {
                    assert(left =~= right);
                }
            },
            _ => {},
        }
    } else {
        let k = choose|k: int| 0 <= k < one.len() && !(read_pane(#[trigger] one[k]) is Some);
        assert(!(read_pane(other[k]) is Some));
    }
}

/// Trees that hold the same are read as the same session.
proof fn lemma_same_session(a: TomlView, b: TomlView)
    requires
        alike(a, b),
    ensures
        read_session(a) == read_session(b),
{
    if let (TomlView::Table(x), TomlView::Table(y)) = (a, b) {
        assert(a == TomlView::Table(x) && b == TomlView::Table(y));
        lemma_alike(x, y, "files"@);
        lemma_alike(x, y, "focused"@);
        lemma_alike(x, y, "layout"@);
        lemma_lists(got(x, "files"@), got(y, "files"@));
        lemma_scalars(got(x, "focused"@), got(y, "focused"@));
        if let (Some(one), Some(other)) = (got(x, "layout"@), got(y, "layout"@)) {
            lemma_same_pane(one, other);
        }
    }
}

proof fn lemma_plain_names()
    ensures
        "split"@[0] != '$' && "sizes"@[0] != '$' && "panes"@[0] != '$',
        "file"@[0] != '$' && "line"@[0] != '$' && "column"@[0] != '$' && "top"@[0] != '$',
        "files"@[0] != '$' && "focused"@[0] != '$' && "layout"@[0] != '$',
{
    reveal_strlit("split");
    reveal_strlit("sizes");
    reveal_strlit("panes");
    reveal_strlit("file");
    reveal_strlit("line");
    reveal_strlit("column");
    reveal_strlit("top");
    reveal_strlit("files");
    reveal_strlit("focused");
    reveal_strlit("layout");
}

/// A pane can be read from what it is written as.
proof fn lemma_pane_readable(pane: PaneView, n: nat)
    requires
        nests(pane, n),
    ensures
        readable(written_pane(pane), n),
    decreases n,
{
    lemma_names();
    lemma_plain_names();
    reveal_with_fuel(on_a_line, 2);
    match pane {
        PaneView::Split { split, sizes, panes } => {
            lemma_written_split(split, sizes, panes);
            let entries = written_pane(pane)->Table_0;
            let items = written_panes(panes);
            let inner = TomlView::List(items);
            assert forall|i: int| 0 <= i < items.len() implies n > 0 && (
            #[trigger] items[i]) is Table && readable(items[i], (n - 1) as nat) by {
                assert(nests(panes[i], (n - 1) as nat));
                lemma_pane_readable(panes[i], (n - 1) as nat);
            }
            if sizes.len() > 0 {
                assert(entries =~= seq![
                    ("split"@, TomlView::Text(split_name(split))),
                    ("sizes"@, numbers(sizes)),
                    ("panes"@, inner),
                ]);
                let shares = numbers(sizes)->List_0;
                assert(shares[0] is Number);
                assert(!lists_tables(numbers(sizes)));
                assert(on_a_line(numbers(sizes), most_levels()));
            } else {
                assert(entries =~= seq![
                    ("split"@, TomlView::Text(split_name(split))),
                    ("panes"@, inner),
                ]);
            }
            if items.len() == 0 {
                assert(on_a_line(inner, most_levels()));
            } else {
                assert(lists_tables(inner));
                assert(inner->List_0 == items);
                assert(forall|k: int|
                    0 <= k < inner->List_0.len() ==> readable(
                        #[trigger] inner->List_0[k],
                        (n - 1) as nat,
                    ));
            }
            assert(plain_names(entries));
            assert forall|i: int| 0 <= i < entries.len() implies {
                let value = (#[trigger] entries[i]).1;
                if value is Table {
                    n > 0 && readable(value, (n - 1) as nat)
                } else if lists_tables(value) {
                    n > 0 && forall|k: int|
                        0 <= k < value->List_0.len() ==> readable(
                            #[trigger] value->List_0[k],
                            (n - 1) as nat,
                        )
                } else {
                    on_a_line(value, most_levels())
                }
            } by {
                if i == entries.len() - 1 {
                    assert(entries[i].1 == inner);
                    if items.len() > 0 {
                        assert(items[0] is Table);
                    }
                }
            }
            assert(written_pane(pane) == TomlView::Table(entries));
        },
        PaneView::View { file, line, column, top } => {
            let entries = written_pane(pane)->Table_0;
            match top {
                Some(top) => {
                    assert(entries =~= seq![
                        ("file"@, TomlView::Text(file)),
                        ("line"@, TomlView::Number(line as i64)),
                        ("column"@, TomlView::Number(column as i64)),
                        ("top"@, TomlView::Number(top as i64)),
                    ]);
                },
                None => {
                    assert(entries =~= seq![
                        ("file"@, TomlView::Text(file)),
                        ("line"@, TomlView::Number(line as i64)),
                        ("column"@, TomlView::Number(column as i64)),
                    ]);
                },
            }
            assert(plain_names(entries));
        },
    }
}

proof fn lemma_session_readable(session: SessionView)
    requires
        session_nests(session),
    ensures
        readable(written(session), most_levels()),
{
    lemma_names();
    lemma_plain_names();
    reveal_with_fuel(on_a_line, 2);
    let entries = written(session)->Table_0;
    let list = texts(session.files);
    assert(!lists_tables(list)) by {
        if list->List_0.len() > 0 {
            assert(list->List_0[0] is Text);
        }
    }
    assert(on_a_line(list, most_levels()));
    if let Some(pane) = session.layout {
        lemma_pane_readable(pane, (most_levels() - 1) as nat);
    }
    match (session.focused, session.layout) {
        (Some(file), Some(pane)) => {
            assert(entries =~= seq![
                ("files"@, list),
                ("focused"@, TomlView::Text(file)),
                ("layout"@, written_pane(pane)),
            ]);
        },
        (Some(file), None) => {
            assert(entries =~= seq![("files"@, list), ("focused"@, TomlView::Text(file))]);
        },
        (None, Some(pane)) => {
            assert(entries =~= seq![("files"@, list), ("layout"@, written_pane(pane))]);
        },
        (None, None) => {
            assert(entries =~= seq![("files"@, list)]);
        },
    }
    assert(plain_names(entries));
}

/// A text that the tree of a session is read from is a text the session is read from.
pub proof fn a_text_of_a_session_is_that_session(text: Seq<char>, session: SessionView)
    requires
        session_fits(session),
        session_nests(session),
        reads_as(text, written(session)),
    ensures
        reads_back(text, session),
{
    lemma_session_readable(session);
    a_session_reads_back_as_written(session);
    lemma_same_session(written(session), tree_of(text)->Ok_0);
}

} // verus!
