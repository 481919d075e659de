//! The inputs of a picker: its columns, the boxes under the query line and the switches at
//! its end.

use crate::text::{append, chars, first_space, is_space, lemma_first_space, next_space, same_str,
    starts, starts_with, string, whitespace};
use vstd::prelude::*;

verus! {

/// The picker no longer takes items.
#[derive(Debug, Clone, Copy, PartialEq, Eq, Structural)]
pub struct InjectorShutdown;

/// Whether a stream of items is still the picker's: each time it is closed it counts one
/// up, and what was streaming into it is shut out.
pub fn still_open(version: usize, picker_version: usize) -> (r: Result<(), InjectorShutdown>)
    ensures
        r is Ok == (version == picker_version),
{
    if version != picker_version {
        return Err(InjectorShutdown);
    }
    Ok(())
}

// ---------------------------------------------------------------------------------------
// Columns
// ---------------------------------------------------------------------------------------

/// A column of the list.
#[derive(Debug)]
pub struct Column {
    pub name: String,
    /// Which end of the cell to cut when it does not fit. A path keeps its tail, a line of
    /// text keeps its head.
    pub truncate_start: bool,
    /// Whether the column is matched and filtered by.
    pub filter: bool,
    pub hidden: bool,
    /// Whether each word typed must appear whole in the cell, in order of letters and
    /// together, rather than letter by letter anywhere: a line of prose read by fuzzy
    /// matching finds nearly everything.
    pub words: bool,
    /// The values this column takes, when they are few and known: a word typed for the
    /// primary column that is one of them narrows this column instead.
    pub keywords: Vec<&'static str>,
}

#[verifier::ext_equal]
pub struct ColumnView {
    pub name: Seq<char>,
    pub truncate_start: bool,
    pub filter: bool,
    pub hidden: bool,
    pub words: bool,
    pub keywords: Seq<Seq<char>>,
}

impl DeepView for Column {
    type V = ColumnView;

    open spec fn deep_view(&self) -> ColumnView {
        ColumnView {
            name: self.name@,
            truncate_start: self.truncate_start,
            filter: self.filter,
            hidden: self.hidden,
            words: self.words,
            keywords: self.keywords.deep_view(),
        }
    }
}

impl Column {
    pub fn new(name: &str) -> (r: Column)
        ensures
            r.deep_view() == (ColumnView {
                name: name@,
                truncate_start: true,
                filter: true,
                hidden: false,
                words: false,
                keywords: Seq::empty(),
            }),
    {
        let r: Column = Column {
            name: name.to_string(),
            truncate_start: true,
            filter: true,
            hidden: false,
            words: false,
            keywords: Vec::new(),
        };
        proof {
            assert(r.keywords.deep_view() =~= Seq::empty());
        }
        r
    }

    /// A column which does not display any contents.
    pub fn hidden(name: &str) -> (r: Column)
        ensures
            r.deep_view() == (ColumnView {
                name: name@,
                truncate_start: true,
                filter: false,
                hidden: true,
                words: false,
                keywords: Seq::empty(),
            }),
    {
        let r: Column = Column {
            name: name.to_string(),
            truncate_start: true,
            filter: false,
            hidden: true,
            words: false,
            keywords: Vec::new(),
        };
        proof {
            assert(r.keywords.deep_view() =~= Seq::empty());
        }
        r
    }

    /// A column that is searched but not shown: what the others say, put together, so
    /// plain text typed in the query finds a row by any of them.
    pub fn searched_only(name: &str) -> (r: Column)
        ensures
            r.deep_view() == (ColumnView {
                name: name@,
                truncate_start: true,
                filter: true,
                hidden: true,
                words: true,
                keywords: Seq::empty(),
            }),
    {
        let r: Column = Column {
            name: name.to_string(),
            truncate_start: true,
            filter: true,
            hidden: true,
            words: true,
            keywords: Vec::new(),
        };
        proof {
            assert(r.keywords.deep_view() =~= Seq::empty());
        }
        r
    }

    pub fn without_filtering(self) -> (r: Column)
        ensures
            r == (Column { filter: false, ..self }),
    {
        Column { filter: false, ..self }
    }

    /// Names the values this column takes, so typing one of them whole narrows the column
    /// without `%name` before it.
    pub fn with_keywords(self, keywords: Vec<&'static str>) -> (r: Column)
        ensures
            r == (Column { keywords, ..self }),
    {
        Column { keywords, ..self }
    }

    /// Cut this column's tail rather than its head when it does not fit.
    pub fn keeping_start(self) -> (r: Column)
        ensures
            r == (Column { truncate_start: false, ..self }),
    {
        Column { truncate_start: false, ..self }
    }
}

/// How many of the first `n` columns are matched and filtered by.
pub open spec fn filtering(columns: Seq<ColumnView>, n: nat) -> nat
    decreases n,
{
    if n == 0 {
        0
    } else {
        filtering(columns, (n - 1) as nat) + (if columns[n - 1].filter {
            1nat
        } else {
            0
        })
    }
}

/// How many columns the matcher has to have.
pub fn matcher_columns(columns: &Vec<Column>) -> (r: usize)
    ensures
        r == filtering(columns.deep_view(), columns@.len()),
{
    let ghost all = columns.deep_view();
    let mut count: usize = 0;
    let mut n: usize = 0;
    while n < columns.len()
        invariant
            n <= columns@.len(),
            count <= n,
            all == columns.deep_view(),
            count == filtering(all, n as nat),
        decreases columns@.len() - n,
    {
        proof {
            assert(all[n as int] == columns@[n as int].deep_view());
        }
        if columns[n].filter {
            count = count + 1;
        }
        n = n + 1;
    }
    count
}

// ---------------------------------------------------------------------------------------
// Switches and boxes
// ---------------------------------------------------------------------------------------

/// A switch drawn at the right end of the picker's query line. `Tab` walks onto it and
/// `Space` or a click flips it; `Alt` + `key` flips it from anywhere.
#[derive(Debug, Clone, Copy)]
pub struct PanelToggle {
    pub name: &'static str,
    pub label: &'static str,
    pub key: char,
    pub on: bool,
    /// Said on the query line while the switch is off and a box it shows holds text.
    pub warning: Option<&'static str>,
}

#[verifier::ext_equal]
pub struct ToggleView {
    pub name: Seq<char>,
    pub label: Seq<char>,
    pub key: char,
    pub on: bool,
    pub warning: Option<Seq<char>>,
}

impl DeepView for PanelToggle {
    type V = ToggleView;

    open spec fn deep_view(&self) -> ToggleView {
        ToggleView {
            name: self.name@,
            label: self.label@,
            key: self.key,
            on: self.on,
            warning: self.warning.deep_view(),
        }
    }
}

impl PanelToggle {
    pub fn new(name: &'static str, label: &'static str, key: char, on: bool) -> (r: PanelToggle)
        ensures
            r == (PanelToggle { name, label, key, on, warning: None }),
    {
        PanelToggle { name, label, key, on, warning: None }
    }

    /// For a switch that hides boxes which still apply while hidden: what the query line
    /// says so nobody is narrowed by a filter they cannot see.
    pub fn warning_when_off(self, warning: &'static str) -> (r: PanelToggle)
        ensures
            r == (PanelToggle { warning: Some(warning), ..self }),
    {
        PanelToggle { warning: Some(warning), ..self }
    }
}

/// A text box on its own line under the query line, reaching the dynamic query as a field
/// named `name`. An empty box asks for nothing.
#[derive(Debug)]
pub struct PanelField {
    pub name: &'static str,
    pub label: &'static str,
    /// What is drawn in the box while nothing is typed in it.
    pub placeholder: &'static str,
    pub line: String,
    /// The switch that shows the box; without one it is always there. A hidden box keeps
    /// its text and still reaches the query: what it means hidden is the owner's to decide.
    pub shown_by: Option<&'static str>,
    /// A button at the right end of the line that runs the panel action.
    pub button: Option<&'static str>,
}

#[verifier::ext_equal]
pub struct FieldView {
    pub name: Seq<char>,
    pub label: Seq<char>,
    pub placeholder: Seq<char>,
    pub line: Seq<char>,
    pub shown_by: Option<Seq<char>>,
    pub button: Option<Seq<char>>,
}

impl DeepView for PanelField {
    type V = FieldView;

    open spec fn deep_view(&self) -> FieldView {
        FieldView {
            name: self.name@,
            label: self.label@,
            placeholder: self.placeholder@,
            line: self.line@,
            shown_by: self.shown_by.deep_view(),
            button: self.button.deep_view(),
        }
    }
}

impl PanelField {
    pub fn new(name: &'static str, label: &'static str, placeholder: &'static str) -> (r: PanelField)
        ensures
            r.deep_view() == (FieldView {
                name: name@,
                label: label@,
                placeholder: placeholder@,
                line: Seq::empty(),
                shown_by: None,
                button: None,
            }),
    {
        PanelField { name, label, placeholder, line: String::new(), shown_by: None, button: None }
    }

    pub fn with_value(self, value: String) -> (r: PanelField)
        ensures
            r == (PanelField { line: value, ..self }),
    {
        PanelField { line: value, ..self }
    }

    pub fn shown_by(self, toggle: &'static str) -> (r: PanelField)
        ensures
            r == (PanelField { shown_by: Some(toggle), ..self }),
    {
        PanelField { shown_by: Some(toggle), ..self }
    }

    pub fn with_button(self, label: &'static str) -> (r: PanelField)
        ensures
            r == (PanelField { button: Some(label), ..self }),
    {
        PanelField { button: Some(label), ..self }
    }
}

/// Whether a switch of that name is on, among those from `k` on.
pub open spec fn is_on(toggles: Seq<ToggleView>, name: Seq<char>) -> bool {
    exists|i: int|
        0 <= i < toggles.len() && (#[trigger] toggles[i]).name == name && toggles[i].on
}

/// Whether a box is on screen: always, unless its switch is off.
pub open spec fn is_shown(field: FieldView, toggles: Seq<ToggleView>) -> bool {
    match field.shown_by {
        Some(name) => is_on(toggles, name),
        None => true,
    }
}

/// The boxes on screen among the first `n`, by number, top to bottom.
pub open spec fn fields_shown(fields: Seq<FieldView>, toggles: Seq<ToggleView>, n: nat) -> Seq<
    usize,
>
    decreases n,
{
    if n == 0 {
        Seq::empty()
    } else {
        let before = fields_shown(fields, toggles, (n - 1) as nat);
        if is_shown(fields[n - 1], toggles) {
            before.push((n - 1) as usize)
        } else {
            before
        }
    }
}

pub fn toggle_is_on(toggles: &Vec<PanelToggle>, name: &str) -> (r: bool)
    ensures
        r == is_on(toggles.deep_view(), name@),
{
    let ghost all = toggles.deep_view();
    let mut k: usize = 0;
    while k < toggles.len()
        invariant
            k <= toggles@.len(),
            all == toggles.deep_view(),
            forall|i: int| 0 <= i < k ==> !((#[trigger] all[i]).name == name@ && all[i].on),
        decreases toggles@.len() - k,
    {
        proof {
            assert(all[k as int] == toggles@[k as int].deep_view());
        }
        if toggles[k].on && same_str(toggles[k].name, name) {
            return true;
        }
        k = k + 1;
    }
    false
}

pub fn field_shown(field: &PanelField, toggles: &Vec<PanelToggle>) -> (r: bool)
    ensures
        r == is_shown(field.deep_view(), toggles.deep_view()),
{
    match field.shown_by {
        Some(name) => toggle_is_on(toggles, name),
        None => true,
    }
}

pub fn shown_fields(fields: &Vec<PanelField>, toggles: &Vec<PanelToggle>) -> (r: Vec<usize>)
    ensures
        r@ == fields_shown(fields.deep_view(), toggles.deep_view(), fields@.len()),
        forall|i: int| 0 <= i < r@.len() ==> (#[trigger] r@[i]) < fields@.len(),
{
    let ghost all = fields.deep_view();
    let mut shown: Vec<usize> = Vec::new();
    let mut n: usize = 0;
    while n < fields.len()
        invariant
            n <= fields@.len(),
            all == fields.deep_view(),
            shown@ == fields_shown(all, toggles.deep_view(), n as nat),
            forall|i: int| 0 <= i < shown@.len() ==> (#[trigger] shown@[i]) < n,
        decreases fields@.len() - n,
    {
        proof {
            assert(all[n as int] == fields@[n as int].deep_view());
        }
        if field_shown(&fields[n], toggles) {
            shown.push(n);
        }
        n = n + 1;
    }
    shown
}

// ---------------------------------------------------------------------------------------
// What a search is run against
// ---------------------------------------------------------------------------------------

/// Every input of a picker at one moment: the query, the `%field` prefixes typed beside
/// it, the boxes under it and the switches. This is what a dynamic query is re-run
/// against, so flipping a switch refreshes the results the same way typing does.
#[derive(Debug, PartialEq)]
pub struct PanelInput {
    pub query: String,
    pub fields: Vec<(String, String)>,
    pub toggles: Vec<(&'static str, bool)>,
}

#[verifier::ext_equal]
pub struct InputView {
    pub query: Seq<char>,
    pub fields: Seq<(Seq<char>, Seq<char>)>,
    pub toggles: Seq<(Seq<char>, bool)>,
}

impl DeepView for PanelInput {
    type V = InputView;

    open spec fn deep_view(&self) -> InputView {
        InputView {
            query: self.query@,
            fields: self.fields.deep_view(),
            toggles: self.toggles.deep_view(),
        }
    }
}

impl Default for PanelInput {
    fn default() -> (r: PanelInput)
        ensures
            r.deep_view() == (InputView {
                query: Seq::empty(),
                fields: Seq::empty(),
                toggles: Seq::empty(),
            }),
    {
        let r: PanelInput = PanelInput {
            query: String::new(),
            fields: Vec::new(),
            toggles: Vec::new(),
        };
        proof {
            assert(r.fields.deep_view() =~= Seq::empty());
            assert(r.toggles.deep_view() =~= Seq::empty());
        }
        r
    }
}

/// The text of the first field from `k` on with a name; none where nothing has it.
pub open spec fn text_named(fields: Seq<(Seq<char>, Seq<char>)>, k: int, name: Seq<char>) -> Seq<
    char,
>
    decreases fields.len() - k,
{
    if k >= fields.len() {
        Seq::empty()
    } else if fields[k].0 == name {
        fields[k].1
    } else {
        text_named(fields, k + 1, name)
    }
}

/// Whether the first switch from `k` on with a name is on.
pub open spec fn on_named(toggles: Seq<(Seq<char>, bool)>, k: int, name: Seq<char>) -> bool
    decreases toggles.len() - k,
{
    if k >= toggles.len() {
        false
    } else if toggles[k].0 == name {
        toggles[k].1
    } else {
        on_named(toggles, k + 1, name)
    }
}

impl PanelInput {
    pub fn query(&self) -> (r: &str)
        ensures
            r@ == self.deep_view().query,
    {
        self.query.as_str()
    }

    /// The text of the named `%field`, empty when nothing was typed for it.
    pub fn field(&self, name: &str) -> (r: &str)
        ensures
            r@ == text_named(self.deep_view().fields, 0, name@),
    {
        let ghost all = self.fields.deep_view();
        let mut k: usize = 0;
        while k < self.fields.len()
            invariant
                k <= self.fields@.len(),
                all == self.fields.deep_view(),
                text_named(all, 0, name@) == text_named(all, k as int, name@),
            decreases self.fields@.len() - k,
        {
            proof {
                assert(all[k as int] == (self.fields@[k as int].0@, self.fields@[k as int].1@));
            }
            if same_str(self.fields[k].0.as_str(), name) {
                return self.fields[k].1.as_str();
            }
            k = k + 1;
        }
        proof {
            reveal_strlit("");
            assert(""@ =~= Seq::empty());
        }
        ""
    }

    /// Whether the named switch is on, false when the picker declares no such switch.
    pub fn toggle(&self, name: &str) -> (r: bool)
        ensures
            r == on_named(self.deep_view().toggles, 0, name@),
    {
        let ghost all = self.toggles.deep_view();
        let mut k: usize = 0;
        while k < self.toggles.len()
            invariant
                k <= self.toggles@.len(),
                all == self.toggles.deep_view(),
                on_named(all, 0, name@) == on_named(all, k as int, name@),
            decreases self.toggles@.len() - k,
        {
            proof {
                assert(all[k as int] == (self.toggles@[k as int].0@, self.toggles@[k as int].1));
            }
            if same_str(self.toggles[k].0, name) {
                return self.toggles[k].1;
            }
            k = k + 1;
        }
        false
    }
}

/// What was typed for each column that was typed for, by its name.
pub type Query = Vec<(String, String)>;

pub type QueryView = Seq<(Seq<char>, Seq<char>)>;

/// The first entry of a query from `k` on for a column, by number; or the end.
pub open spec fn typed_at(query: QueryView, k: int, name: Seq<char>) -> int
    decreases query.len() - k,
{
    if k >= query.len() {
        query.len() as int
    } else if query[k].0 == name {
        k
    } else {
        typed_at(query, k + 1, name)
    }
}

fn find_typed(query: &Query, name: &str) -> (r: usize)
    ensures
        r == typed_at(query.deep_view(), 0, name@),
        r <= query@.len(),
{
    let ghost all = query.deep_view();
    let mut k: usize = 0;
    while k < query.len()
        invariant
            k <= query@.len(),
            all == query.deep_view(),
            typed_at(all, 0, name@) == typed_at(all, k as int, name@),
        decreases query@.len() - k,
    {
        proof {
            assert(all[k as int] == (query@[k as int].0@, query@[k as int].1@));
        }
        if same_str(query[k].0.as_str(), name) {
            return k;
        }
        k = k + 1;
    }
    k
}

/// What was typed for a column, where anything was.
pub open spec fn typed_for(query: QueryView, name: Seq<char>) -> Option<Seq<char>> {
    let at = typed_at(query, 0, name);
    if at < query.len() {
        Some(query[at].1)
    } else {
        None
    }
}

/// Two queries ask for the same, in whatever order they do.
pub open spec fn asks_the_same(a: QueryView, b: QueryView) -> bool {
    forall|name: Seq<char>| #[trigger] typed_for(a, name) == typed_for(b, name)
}

proof fn lemma_typed_at(query: QueryView, k: int, name: Seq<char>)
    requires
        0 <= k <= query.len(),
    ensures
        k <= typed_at(query, k, name) <= query.len(),
        typed_at(query, k, name) < query.len() ==> query[typed_at(query, k, name)].0 == name,
    decreases query.len() - k,
{
    if k < query.len() && query[k].0 != name {
        lemma_typed_at(query, k + 1, name);
    }
}

/// What one query asks for is what another does.
fn is_part_of(a: &Query, b: &Query) -> (r: bool)
    ensures
        r == (forall|k: int|
            0 <= k < a.deep_view().len() ==> typed_for(a.deep_view(), (#[trigger] a.deep_view()[k]).0)
                == typed_for(b.deep_view(), a.deep_view()[k].0)),
{
    let ghost left = a.deep_view();
    let ghost right = b.deep_view();
    let mut k: usize = 0;
    while k < a.len()
        invariant
            k <= a@.len(),
            left == a.deep_view(),
            right == b.deep_view(),
            forall|i: int|
                0 <= i < k ==> typed_for(left, (#[trigger] left[i]).0) == typed_for(
                    right,
                    left[i].0,
                ),
        decreases a@.len() - k,
    {
        let own: usize = find_typed(a, a[k].0.as_str());
        let other: usize = find_typed(b, a[k].0.as_str());
        proof {
            assert(left[k as int] == a@[k as int].deep_view());
            lemma_typed_at(left, 0, left[k as int].0);
            lemma_typed_at(right, 0, left[k as int].0);
            if own < a.len() {
                assert(left[own as int] == a@[own as int].deep_view());
            }
            if other < b.len() {
                assert(right[other as int] == b@[other as int].deep_view());
            }
        }
        let same: bool = if own < a.len() && other < b.len() {
            same_str(a[own].1.as_str(), b[other].1.as_str())
        } else {
            own >= a.len() && other >= b.len()
        };
        if !same {
            assert(typed_for(left, left[k as int].0) != typed_for(right, left[k as int].0));
            return false;
        }
        k = k + 1;
    }
    true
}

pub fn same_query(a: &Query, b: &Query) -> (r: bool)
    ensures
        r == asks_the_same(a.deep_view(), b.deep_view()),
{
    let ghost left = a.deep_view();
    let ghost right = b.deep_view();
    let same: bool = is_part_of(a, b) && is_part_of(b, a);
    proof {
        if same {
            assert forall|name: Seq<char>| #[trigger] typed_for(left, name) == typed_for(
                right,
                name,
            ) by {
                lemma_typed_at(left, 0, name);
                lemma_typed_at(right, 0, name);
                let i = typed_at(left, 0, name);
                let j = typed_at(right, 0, name);
                if i < left.len() {
                    assert(left[i].0 == name);
                }
                if j < right.len() {
                    assert(right[j].0 == name);
                }
            }
        } else if asks_the_same(left, right) {
            assert forall|k: int| 0 <= k < left.len() implies typed_for(
                left,
                (#[trigger] left[k]).0,
            ) == typed_for(right, left[k].0) by {}
            assert forall|k: int| 0 <= k < right.len() implies typed_for(
                right,
                (#[trigger] right[k]).0,
            ) == typed_for(left, right[k].0) by {
                assert(typed_for(left, right[k].0) == typed_for(right, right[k].0));
            }
        }
    }
    same
}

/// What was typed for the columns among the first `n` that are not filtered by: they reach
/// the search as fields.
pub open spec fn typed_fields(columns: Seq<ColumnView>, query: QueryView, n: nat) -> Seq<
    (Seq<char>, Seq<char>),
>
    decreases n,
{
    if n == 0 {
        Seq::empty()
    } else {
        let before = typed_fields(columns, query, (n - 1) as nat);
        let at = typed_at(query, 0, columns[n - 1].name);
        if !columns[n - 1].filter && at < query.len() {
            before.push((columns[n - 1].name, query[at].1))
        } else {
            before
        }
    }
}

pub open spec fn box_field(field: FieldView) -> (Seq<char>, Seq<char>) {
    (field.name, field.line)
}

pub open spec fn toggle_input(toggle: ToggleView) -> (Seq<char>, bool) {
    (toggle.name, toggle.on)
}

/// The inputs of a panel: what was typed for the primary column, the fields typed beside it
/// and those of the boxes, and the switches.
pub open spec fn inputs(
    columns: Seq<ColumnView>,
    primary: int,
    query: QueryView,
    fields: Seq<FieldView>,
    toggles: Seq<ToggleView>,
) -> InputView {
    InputView {
        query: text_named(query, 0, columns[primary].name),
        fields: typed_fields(columns, query, columns.len()) + fields.map_values(
            |field: FieldView| box_field(field),
        ),
        toggles: toggles.map_values(|toggle: ToggleView| toggle_input(toggle)),
    }
}

/// The inputs of a panel at one moment.
pub fn panel_input(
    columns: &Vec<Column>,
    primary: usize,
    query: &Query,
    fields: &Vec<PanelField>,
    toggles: &Vec<PanelToggle>,
) -> (r: PanelInput)
    requires
        primary < columns@.len(),
    ensures
        r.deep_view() == inputs(
            columns.deep_view(),
            primary as int,
            query.deep_view(),
            fields.deep_view(),
            toggles.deep_view(),
        ),
{
    let ghost all = columns.deep_view();
    let ghost typed = query.deep_view();
    let mut named: Vec<(String, String)> = Vec::new();
    let mut n: usize = 0;
    proof {
        assert(named.deep_view() =~= Seq::empty());
    }
    while n < columns.len()
        invariant
            n <= columns@.len(),
            all == columns.deep_view(),
            typed == query.deep_view(),
            named.deep_view() == typed_fields(all, typed, n as nat),
        decreases columns@.len() - n,
    {
        proof {
            assert(all[n as int] == columns@[n as int].deep_view());
        }
        if !columns[n].filter {
            let at: usize = find_typed(query, columns[n].name.as_str());
            if at < query.len() {
                let ghost before = named.deep_view();
                let one: (String, String) = (columns[n].name.clone(), query[at].1.clone());
                named.push(one);
                proof {
                    assert(typed[at as int] == (query@[at as int].0@, query@[at as int].1@));
                    assert(named.deep_view() =~= before.push(one.deep_view()));
                }
            }
        }
        n = n + 1;
    }
    let ghost first = named.deep_view();
    let ghost boxes = fields.deep_view().map_values(|field: FieldView| box_field(field));
    let mut n: usize = 0;
    proof {
        assert(first + boxes.take(0) =~= first);
    }
    while n < fields.len()
        invariant
            n <= fields@.len(),
            boxes == fields.deep_view().map_values(|field: FieldView| box_field(field)),
            named.deep_view() == first + boxes.take(n as int),
        decreases fields@.len() - n,
    {
        let ghost before = named.deep_view();
        let one: (String, String) = (fields[n].name.to_string(), fields[n].line.clone());
        named.push(one);
        proof {
            assert(fields.deep_view()[n as int] == fields@[n as int].deep_view());
            assert(boxes[n as int] == one.deep_view());
            assert(named.deep_view() =~= before.push(one.deep_view()));
            assert(named.deep_view() =~= first + boxes.take(n + 1));
        }
        n = n + 1;
    }
    proof {
        assert(boxes.take(n as int) =~= boxes);
    }
    let mut switches: Vec<(&'static str, bool)> = Vec::new();
    let mut n: usize = 0;
    while n < toggles.len()
        invariant
            n <= toggles@.len(),
            switches@.len() == n,
            forall|i: int|
                0 <= i < n ==> (#[trigger] switches@[i]).deep_view() == toggle_input(
                    toggles@[i].deep_view(),
                ),
        decreases toggles@.len() - n,
    {
        switches.push((toggles[n].name, toggles[n].on));
        n = n + 1;
    }
    proof {
        assert(switches.deep_view() =~= toggles.deep_view().map_values(
            |toggle: ToggleView| toggle_input(toggle),
        ));
    }
    let at: usize = find_typed(query, columns[primary].name.as_str());
    proof {
        lemma_text_named(typed, 0, all[primary as int].name);
        assert(all[primary as int] == columns@[primary as int].deep_view());
    }
    let text: String = if at < query.len() {
        proof {
            assert(typed[at as int] == (query@[at as int].0@, query@[at as int].1@));
        }
        query[at].1.clone()
    } else {
        String::new()
    };
    PanelInput { query: text, fields: named, toggles: switches }
}

proof fn lemma_text_named(query: QueryView, k: int, name: Seq<char>)
    requires
        0 <= k <= query.len(),
    ensures
        text_named(query, k, name) == if typed_at(query, k, name) < query.len() {
            query[typed_at(query, k, name)].1
        } else {
            Seq::empty()
        },
        k <= typed_at(query, k, name) <= query.len(),
    decreases query.len() - k,
{
    if k < query.len() && query[k].0 != name {
        lemma_text_named(query, k + 1, name);
    }
}

// ---------------------------------------------------------------------------------------
// Patterns
// ---------------------------------------------------------------------------------------

/// Whether the word that starts at `i` carries a mark of its own: in front `^`, `'`, `!` or the
/// `\` of an escape, at its end `$`.
pub open spec fn has_mark(s: Seq<char>, i: int) -> bool {
    let c = s[i];
    c == '^' || c == '\'' || c == '!' || c == '\\' || s[first_space(s, i) - 1] == '$'
}

/// A text from `i` on with a mark in front of each word that carries none of its own;
/// `start` says whether a word may start there.
pub open spec fn marked_from(s: Seq<char>, i: int, start: bool) -> Seq<char>
    decreases s.len() - i,
{
    if i >= s.len() {
        Seq::empty()
    } else {
        let c = s[i];
        (if start && !is_space(c) && !has_mark(s, i) {
            seq!['\'', c]
        } else {
            seq![c]
        }) + marked_from(s, i + 1, is_space(c))
    }
}

/// Asks for each word of `query` as it was typed, together and in order: a leading `'` is
/// the matcher's mark for that. A word that already carries a mark of its own (`^`, `'`,
/// `!`, `$` or a `\` escape) is left as it is.
pub fn whole_words(query: &str) -> (r: String)
    ensures
        r@ == marked_from(query@, 0, true),
{
    let letters: Vec<char> = chars(query);
    let ghost whole = marked_from(query@, 0, true);
    let mut out: Vec<char> = Vec::new();
    let mut start: bool = true;
    let mut i: usize = 0;
    proof {
        assert(out@ + whole =~= whole);
    }
    while i < letters.len()
        invariant
            i <= letters@.len(),
            letters@ == query@,
            whole == out@ + marked_from(query@, i as int, start),
        decreases letters@.len() - i,
    {
        let c: char = letters[i];
        let ghost before = out@;
        let ghost rest = marked_from(query@, i as int, start);
        if start && !whitespace(c) {
            let end: usize = next_space(letters.as_slice(), i);
            proof {
                lemma_first_space(letters@, i as int);
            }
            if !(c == '^' || c == '\'' || c == '!' || c == '\\' || letters[end - 1] == '$') {
                out.push('\'');
            }
        }
        out.push(c);
        start = whitespace(c);
        i = i + 1;
        proof {
            assert(out@ + marked_from(query@, i as int, start) =~= before + rest);
        }
    }
    proof {
        assert(out@ + Seq::<char>::empty() =~= out@);
    }
    string(out.as_slice())
}

/// A column's pattern that is to be parsed again: which of the matcher's columns it is, the
/// pattern, and whether it only went on from what it was.
#[derive(Debug, PartialEq)]
pub struct PatternChange {
    pub column: usize,
    pub pattern: String,
    pub append: bool,
}

#[verifier::ext_equal]
pub struct PatternChangeView {
    pub column: usize,
    pub pattern: Seq<char>,
    pub append: bool,
}

impl DeepView for PatternChange {
    type V = PatternChangeView;

    open spec fn deep_view(&self) -> PatternChangeView {
        PatternChangeView { column: self.column, pattern: self.pattern@, append: self.append }
    }
}

/// The pattern a column is asked for.
pub open spec fn pattern_for(column: ColumnView, text: Seq<char>) -> Seq<char> {
    if column.words {
        marked_from(text, 0, true)
    } else {
        text
    }
}

/// The patterns of the first `n` columns that another query changes.
pub open spec fn changes(columns: Seq<ColumnView>, was: QueryView, now: QueryView, n: nat) -> Seq<
    PatternChangeView,
>
    decreases n,
{
    if n == 0 {
        Seq::empty()
    } else {
        let before = changes(columns, was, now, (n - 1) as nat);
        let column = columns[n - 1];
        let pattern = text_named(now, 0, column.name);
        let old_pattern = text_named(was, 0, column.name);
        // Most columns will remain unchanged after each edit.
        if !column.filter || pattern == old_pattern {
            before
        } else {
            before.push(
                PatternChangeView {
                    column: filtering(columns, (n - 1) as nat) as usize,
                    pattern: pattern_for(column, pattern),
                    append: starts(pattern_for(column, pattern), pattern_for(column, old_pattern)),
                },
            )
        }
    }
}

pub(crate) fn typed_text(query: &Query, name: &str) -> (r: String)
    ensures
        r@ == text_named(query.deep_view(), 0, name@),
{
    let at: usize = find_typed(query, name);
    proof {
        lemma_text_named(query.deep_view(), 0, name@);
    }
    if at < query.len() {
        proof {
            assert(query.deep_view()[at as int] == (query@[at as int].0@, query@[at as int].1@));
        }
        query[at].1.clone()
    } else {
        String::new()
    }
}

fn wanted(column: &Column, text: &str) -> (r: String)
    ensures
        r@ == pattern_for(column.deep_view(), text@),
{
    if column.words {
        whole_words(text)
    } else {
        text.to_string()
    }
}

/// What the matcher has to be told once the query has changed: each column's pattern that
/// is another now.
pub fn pattern_changes(columns: &Vec<Column>, was: &Query, now: &Query) -> (r: Vec<PatternChange>)
    ensures
        r.deep_view() == changes(
            columns.deep_view(),
            was.deep_view(),
            now.deep_view(),
            columns@.len(),
        ),
{
    let ghost all = columns.deep_view();
    let mut list: Vec<PatternChange> = Vec::new();
    let mut column: usize = 0;
    let mut n: usize = 0;
    proof {
        assert(list.deep_view() =~= Seq::empty());
    }
    while n < columns.len()
        invariant
            n <= columns@.len(),
            all == columns.deep_view(),
            column <= n,
            column == filtering(all, n as nat),
            list.deep_view() == changes(all, was.deep_view(), now.deep_view(), n as nat),
        decreases columns@.len() - n,
    {
        proof {
            assert(all[n as int] == columns@[n as int].deep_view());
        }
        if columns[n].filter {
            let pattern: String = typed_text(now, columns[n].name.as_str());
            let old_pattern: String = typed_text(was, columns[n].name.as_str());
            if !same_str(pattern.as_str(), old_pattern.as_str()) {
                let pattern: String = wanted(&columns[n], pattern.as_str());
                let old_pattern: String = wanted(&columns[n], old_pattern.as_str());
                let letters: Vec<char> = chars(pattern.as_str());
                let append: bool = starts_with(letters.as_slice(), old_pattern.as_str());
                let ghost before = list.deep_view();
                let change: PatternChange = PatternChange { column, pattern, append };
                list.push(change);
                proof {
                    assert(list.deep_view() =~= before.push(change.deep_view()));
                }
            }
            column = column + 1;
        }
        n = n + 1;
    }
    list
}

} // verus!
