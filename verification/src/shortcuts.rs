//! Every action the editor has, the keys that reach it, and the way to change them.

use crate::bindings::{action_views, all_found, clash, describes, found_view, in_the_way, in_words,
    key_path, maps_with_set, maps_without, path_label, spelled, unset, walk, walked, Action,
    ActionView, Clash, ClashView, Found, FoundView, KnownView, Runs, RunsView, Where};
use crate::filter::{answers, has_words, split_words, words_of};
use crate::graphics::{capped_cell, less, max, min, Rect};
use crate::input::{KeyCode, KeyEvent, KeyModifiers, MouseButton, MouseEvent, MouseEventKind};
use crate::keymap::{copy_keys, lemma_node_view, same_keys, searched, KeyTrie, Keymaps, KeymapsView,
    MappableCommand, Mode, TrieView};
use crate::settings::{find_row, row_under, without_last};
use crate::sort::{key_view, key_views, order_of, put_in_order, SortKey, SortKeyView};
use crate::text::{append_str, chars, decimal, join, joined, lowercase_of, same_str, string,
    to_lowercase, write_number};
use vstd::prelude::*;

verus! {

// ---------------------------------------------------------------------------------------
// The lines of the screen
// ---------------------------------------------------------------------------------------

/// One line of the screen: an action, with the keys that run it if it has any.
#[derive(Debug)]
pub struct Row {
    /// Where it works, and the table `config.toml` writes it under.
    pub place: Where,
    /// The "Where" column.
    pub scope: String,
    pub keys: Vec<KeyEvent>,
    /// The keys as they read: "Ctrl+S", "Space → h", or nothing at all.
    pub label: String,
    /// What it runs.
    pub runs: Runs,
    pub description: String,
    pub search: String,
}

#[verifier::ext_equal]
pub struct RowView {
    pub place: Where,
    pub scope: Seq<char>,
    pub keys: Seq<KeyEvent>,
    pub label: Seq<char>,
    pub runs: RunsView,
    pub description: Seq<char>,
    pub search: Seq<char>,
}

impl DeepView for Row {
    type V = RowView;

    open spec fn deep_view(&self) -> RowView {
        RowView {
            place: self.place,
            scope: self.scope@,
            keys: self.keys@,
            label: self.label@,
            runs: self.runs.deep_view(),
            description: self.description@,
            search: self.search@,
        }
    }
}

/// A line for an action and its keys. The words of its description are a space apart. An
/// action no key reaches yet is of no world in particular. What is typed looks at the keys
/// and at what they do, never at the column that says where they work.
pub open spec fn row_for(
    place: Where,
    keys: Seq<KeyEvent>,
    runs: RunsView,
    description: Seq<char>,
) -> RowView {
    let description = joined(words_of(description), " "@);
    let label = path_label(keys);
    RowView {
        place,
        scope: if keys.len() == 0 {
            "—"@
        } else {
            place.spec_label()
        },
        keys,
        label,
        runs,
        description,
        search: lowercase_of(label + " "@ + description + " "@ + runs.text()),
    }
}

impl Row {
    pub fn new(place: Where, keys: Vec<KeyEvent>, runs: Runs, description: &str) -> (r: Row)
        ensures
            r.deep_view() == row_for(place, keys@, runs.deep_view(), description@),
    {
        let letters: Vec<char> = chars(description);
        let words: Vec<String> = split_words(letters.as_slice());
        let description: String = join(&words, " ");
        let label: String = key_path(keys.as_slice());
        let scope: String = if keys.len() == 0 {
            "—".to_string()
        } else {
            place.label().to_string()
        };
        let text: String = runs.text();
        let mut search: Vec<char> = chars(label.as_str());
        append_str(&mut search, " ");
        append_str(&mut search, description.as_str());
        append_str(&mut search, " ");
        append_str(&mut search, text.as_str());
        let search: String = string(search.as_slice());
        let search: String = to_lowercase(search.as_str());
        Row { place, scope, keys, label, runs, description, search }
    }

    fn copy(&self) -> (r: Row)
        ensures
            r.deep_view() == self.deep_view(),
    {
        Row {
            place: self.place,
            scope: self.scope.clone(),
            keys: copy_keys(self.keys.as_slice()),
            label: self.label.clone(),
            runs: self.runs.copy(),
            description: self.description.clone(),
            search: self.search.clone(),
        }
    }
}

/// A shortcut, and the modes it is in.
#[derive(Debug)]
struct Seen {
    keys: Vec<KeyEvent>,
    runs: Runs,
    words: String,
    normal: bool,
    select: bool,
    insert: bool,
}

#[verifier::ext_equal]
pub struct SeenView {
    pub keys: Seq<KeyEvent>,
    pub runs: RunsView,
    pub words: Seq<char>,
    pub normal: bool,
    pub select: bool,
    pub insert: bool,
}

impl Seen {
    spec fn seen(self) -> SeenView {
        SeenView {
            keys: self.keys@,
            runs: self.runs.deep_view(),
            words: self.words@,
            normal: self.normal,
            select: self.select,
            insert: self.insert,
        }
    }
}

spec fn all_seen(seen: Seq<Seen>) -> Seq<SeenView> {
    seen.map_values(|one: Seen| one.seen())
}

pub open spec fn marked_in(one: SeenView, mode: Mode) -> SeenView {
    match mode {
        Mode::Normal => SeenView { normal: true, ..one },
        Mode::Select => SeenView { select: true, ..one },
        Mode::Insert => SeenView { insert: true, ..one },
    }
}

/// The first shortcut from `k` on with those keys that runs that, or the end.
pub open spec fn seen_at(
    seen: Seq<SeenView>,
    k: int,
    keys: Seq<KeyEvent>,
    runs: RunsView,
) -> int
    decreases seen.len() - k,
{
    if k >= seen.len() {
        seen.len() as int
    } else if seen[k].keys == keys && seen[k].runs == runs {
        k
    } else {
        seen_at(seen, k + 1, keys, runs)
    }
}

/// The shortcuts with one more that was found in a mode. One shortcut is one line, however
/// many modes it is in, in the words it was first found with.
pub open spec fn with_found(seen: Seq<SeenView>, found: FoundView, mode: Mode) -> Seq<SeenView> {
    let at = seen_at(seen, 0, found.keys, found.runs);
    if at < seen.len() {
        seen.update(at, marked_in(seen[at], mode))
    } else {
        seen.push(
            marked_in(
                SeenView {
                    keys: found.keys,
                    runs: found.runs,
                    words: found.words,
                    normal: false,
                    select: false,
                    insert: false,
                },
                mode,
            ),
        )
    }
}

/// The shortcuts with the first `n` that were found in a mode.
pub open spec fn with_all_found(
    seen: Seq<SeenView>,
    found: Seq<FoundView>,
    n: nat,
    mode: Mode,
) -> Seq<SeenView>
    decreases n,
{
    if n == 0 {
        seen
    } else {
        with_found(with_all_found(seen, found, (n - 1) as nat, mode), found[n - 1], mode)
    }
}

/// The shortcuts with those of a mode's keymap, where it has one.
pub open spec fn with_mode(
    seen: Seq<SeenView>,
    map: Option<TrieView>,
    never: Seq<KeyEvent>,
    mode: Mode,
) -> Seq<SeenView> {
    match map {
        Some(trie) => {
            let found = walked(trie, Seq::empty(), never);
            with_all_found(seen, found, found.len(), mode)
        },
        None => seen,
    }
}

/// Every shortcut of the keymaps, with the modes it is in.
pub open spec fn shortcuts_of(maps: KeymapsView, never: Seq<KeyEvent>) -> Seq<SeenView> {
    with_mode(
        with_mode(
            with_mode(Seq::empty(), maps.normal, never, Mode::Normal),
            maps.select,
            never,
            Mode::Select,
        ),
        maps.insert,
        never,
        Mode::Insert,
    )
}

/// Where a shortcut works. Two worlds, not three modes: typing, and the modal editing that
/// normal and select are two halves of. A shortcut in both worlds is one line.
pub open spec fn places_of(one: SeenView) -> Seq<Where> {
    if one.normal && one.select && one.insert {
        seq![Where::Anywhere]
    } else {
        (if one.insert {
            seq![Where::Insert]
        } else {
            seq![]
        }) + (if one.normal || one.select {
            seq![Where::Modal { normal: one.normal, select: one.select }]
        } else {
            seq![]
        })
    }
}

/// The lines of a shortcut.
pub open spec fn rows_for(one: SeenView) -> Seq<RowView> {
    places_of(one).map_values(|place: Where| row_for(place, one.keys, one.runs, one.words))
}

/// The lines of the first `n` shortcuts, in the order they were found.
pub open spec fn bound_rows(seen: Seq<SeenView>, n: nat) -> Seq<RowView>
    decreases n,
{
    if n == 0 {
        Seq::empty()
    } else {
        bound_rows(seen, (n - 1) as nat) + rows_for(seen[n - 1])
    }
}

pub open spec fn row_key(row: RowView) -> SortKeyView {
    (row.scope, row.label)
}

/// Lines put in order by where they work, then by their keys.
pub open spec fn sorted_rows(rows: Seq<RowView>) -> Seq<RowView> {
    let keys = rows.map_values(|row: RowView| row_key(row));
    order_of(keys, keys.len()).map_values(|n: usize| rows[n as int])
}

/// Whether a shortcut runs an action.
pub open spec fn is_bound(seen: Seq<SeenView>, runs: RunsView) -> bool {
    exists|i: int| 0 <= i < seen.len() && (#[trigger] seen[i]).runs == runs
}

/// The actions among the first `n` that no key reaches yet.
pub open spec fn free_actions(seen: Seq<SeenView>, actions: Seq<ActionView>, n: nat) -> Seq<
    ActionView,
>
    decreases n,
{
    if n == 0 {
        Seq::empty()
    } else {
        let before = free_actions(seen, actions, (n - 1) as nat);
        if is_bound(seen, actions[n - 1].runs) {
            before
        } else {
            before.push(actions[n - 1])
        }
    }
}

pub open spec fn action_key(action: ActionView) -> SortKeyView {
    (action.runs.text(), Seq::empty())
}

pub open spec fn free_row(action: ActionView) -> RowView {
    row_for(Where::Anywhere, Seq::empty(), action.runs, action.words)
}

/// The lines of actions, put in order by what they run.
pub open spec fn free_rows(actions: Seq<ActionView>) -> Seq<RowView> {
    let keys = actions.map_values(|action: ActionView| action_key(action));
    order_of(keys, keys.len()).map_values(|n: usize| free_row(actions[n as int]))
}

/// Every line of the screen: the shortcuts, and then everything the editor can do that no
/// key reaches yet.
pub open spec fn all_rows(maps: KeymapsView, never: Seq<KeyEvent>, actions: Seq<ActionView>) -> Seq<
    RowView,
> {
    let seen = shortcuts_of(maps, never);
    sorted_rows(bound_rows(seen, seen.len())) + free_rows(
        free_actions(seen, actions, actions.len()),
    )
}

fn find_seen(seen: &Vec<Seen>, keys: &[KeyEvent], runs: &Runs) -> (r: usize)
    ensures
        r == seen_at(all_seen(seen@), 0, keys@, runs.deep_view()),
        r <= seen@.len(),
{
    let ghost all = all_seen(seen@);
    let mut k: usize = 0;
    while k < seen.len()
        invariant
            k <= seen@.len(),
            all == all_seen(seen@),
            seen_at(all, 0, keys@, runs.deep_view()) == seen_at(
                all,
                k as int,
                keys@,
                runs.deep_view(),
            ),
        decreases seen@.len() - k,
    {
        if same_keys(seen[k].keys.as_slice(), keys) && seen[k].runs.same(runs) {
            return k;
        }
        k = k + 1;
    }
    k
}

fn mark_mode(one: &mut Seen, mode: Mode)
    ensures
        final(one).seen() == marked_in(old(one).seen(), mode),
{
    match mode {
        Mode::Normal => {
            one.normal = true;
        },
        Mode::Select => {
            one.select = true;
        },
        Mode::Insert => {
            one.insert = true;
        },
    }
}

fn see_mode(seen: &mut Vec<Seen>, map: Option<&KeyTrie>, never: &Vec<KeyEvent>, mode: Mode)
    ensures
        all_seen(final(seen)@) == with_mode(
            all_seen(old(seen)@),
            match map {
                Some(trie) => Some(trie.deep_view()),
                None => None,
            },
            never@,
            mode,
        ),
{
    let trie: &KeyTrie = match map {
        Some(trie) => trie,
        None => {
            return ;
        },
    };
    let mut found: Vec<Found> = Vec::new();
    let mut path: Vec<KeyEvent> = Vec::new();
    let ghost all = walked(trie.deep_view(), Seq::empty(), never@);
    let ghost start = all_seen(seen@);
    proof {
        assert(all_found(found@) + all =~= all);
    }
    walk(trie, &mut path, never, &mut found);
    let mut n: usize = 0;
    while n < found.len()
        invariant
            n <= found@.len(),
            all == all_found(found@),
            all_seen(seen@) == with_all_found(start, all, n as nat, mode),
        decreases found@.len() - n,
    {
        let one: &Found = &found[n];
        let ghost before = all_seen(seen@);
        proof {
            assert(all[n as int] == found_view(*one));
        }
        let at: usize = find_seen(seen, one.0.as_slice(), &one.1);
        if at < seen.len() {
            let mut there: Seen = seen.remove(at);
            mark_mode(&mut there, mode);
            seen.insert(at, there);
            proof {
                assert(all_seen(seen@) =~= before.update(at as int, there.seen()));
            }
        } else {
            let mut new: Seen = Seen {
                keys: copy_keys(one.0.as_slice()),
                runs: one.1.copy(),
                words: one.2.clone(),
                normal: false,
                select: false,
                insert: false,
            };
            mark_mode(&mut new, mode);
            seen.push(new);
            proof {
                assert(all_seen(seen@) =~= before.push(new.seen()));
            }
        }
        n = n + 1;
    }
}

fn see_all(maps: &Keymaps, never: &Vec<KeyEvent>) -> (r: Vec<Seen>)
    ensures
        all_seen(r@) == shortcuts_of(maps.deep_view(), never@),
{
    let mut seen: Vec<Seen> = Vec::new();
    proof {
        assert(all_seen(seen@) =~= Seq::empty());
    }
    see_mode(&mut seen, maps.get(Mode::Normal), never, Mode::Normal);
    see_mode(&mut seen, maps.get(Mode::Select), never, Mode::Select);
    see_mode(&mut seen, maps.get(Mode::Insert), never, Mode::Insert);
    seen
}

fn list_places(one: &Seen) -> (r: Vec<Where>)
    ensures
        r@ == places_of(one.seen()),
{
    let mut places: Vec<Where> = Vec::new();
    if one.normal && one.select && one.insert {
        places.push(Where::Anywhere);
    } else {
        if one.insert {
            places.push(Where::Insert);
        }
        if one.normal || one.select {
            places.push(Where::Modal { normal: one.normal, select: one.select });
        }
    }
    proof {
        assert(places@ =~= places_of(one.seen()));
    }
    places
}

fn list_bound(seen: &Vec<Seen>) -> (r: Vec<Row>)
    ensures
        r.deep_view() == bound_rows(all_seen(seen@), seen@.len()),
{
    let ghost all = all_seen(seen@);
    let mut rows: Vec<Row> = Vec::new();
    let mut n: usize = 0;
    proof {
        assert(rows.deep_view() =~= Seq::empty());
    }
    while n < seen.len()
        invariant
            n <= seen@.len(),
            all == all_seen(seen@),
            rows.deep_view() == bound_rows(all, n as nat),
        decreases seen@.len() - n,
    {
        let one: &Seen = &seen[n];
        let places: Vec<Where> = list_places(one);
        let ghost start = rows.deep_view();
        let ghost want = rows_for(one.seen());
        let mut k: usize = 0;
        proof {
            assert(all[n as int] == one.seen());
            assert(start + want.take(0) =~= start);
        }
        while k < places.len()
            invariant
                k <= places@.len(),
                places@ == places_of(one.seen()),
                want == rows_for(one.seen()),
                rows.deep_view() == start + want.take(k as int),
            decreases places@.len() - k,
        {
            let ghost before = rows.deep_view();
            let row: Row = Row::new(
                places[k],
                copy_keys(one.keys.as_slice()),
                one.runs.copy(),
                one.words.as_str(),
            );
            rows.push(row);
            proof {
                assert(want[k as int] == row.deep_view());
                assert(rows.deep_view() =~= before.push(row.deep_view()));
                assert(want.take(k + 1) =~= want.take(k as int).push(want[k as int]));
                assert(rows.deep_view() =~= start + want.take(k + 1));
            }
            k = k + 1;
        }
        proof {
            assert(want.take(k as int) =~= want);
        }
        n = n + 1;
    }
    rows
}

fn sort_rows(rows: &Vec<Row>) -> (r: Vec<Row>)
    ensures
        r.deep_view() == sorted_rows(rows.deep_view()),
{
    let ghost all = rows.deep_view();
    let mut keys: Vec<SortKey> = Vec::new();
    let mut n: usize = 0;
    while n < rows.len()
        invariant
            n <= rows@.len(),
            keys@.len() == n,
            forall|i: int|
                0 <= i < n ==> key_view(#[trigger] keys@[i]) == row_key(rows@[i].deep_view()),
        decreases rows@.len() - n,
    {
        let key: SortKey = (chars(rows[n].scope.as_str()), chars(rows[n].label.as_str()));
        keys.push(key);
        n = n + 1;
    }
    let ghost want = all.map_values(|row: RowView| row_key(row));
    proof {
        assert(key_views(keys@) =~= want);
    }
    let order: Vec<usize> = put_in_order(&keys);
    let mut sorted: Vec<Row> = Vec::new();
    let mut n: usize = 0;
    while n < order.len()
        invariant
            n <= order@.len(),
            sorted@.len() == n,
            forall|i: int| 0 <= i < order@.len() ==> (#[trigger] order@[i]) < rows@.len(),
            forall|i: int|
                0 <= i < n ==> (#[trigger] sorted@[i]).deep_view()
                    == rows@[order@[i] as int].deep_view(),
        decreases order@.len() - n,
    {
        sorted.push(rows[order[n]].copy());
        n = n + 1;
    }
    proof {
        assert(sorted.deep_view() =~= sorted_rows(all));
    }
    sorted
}

fn is_seen(seen: &Vec<Seen>, runs: &Runs) -> (r: bool)
    ensures
        r == is_bound(all_seen(seen@), runs.deep_view()),
{
    let ghost all = all_seen(seen@);
    let mut k: usize = 0;
    while k < seen.len()
        invariant
            k <= seen@.len(),
            all == all_seen(seen@),
            forall|i: int| 0 <= i < k ==> (#[trigger] all[i]).runs != runs.deep_view(),
        decreases seen@.len() - k,
    {
        if seen[k].runs.same(runs) {
            proof {
                assert(all[k as int].runs == runs.deep_view());
            }
            return true;
        }
        k = k + 1;
    }
    false
}

fn copy_action(action: &Action) -> (r: Action)
    ensures
        crate::bindings::action_view(r) == crate::bindings::action_view(*action),
{
    (action.0.copy(), action.1.clone())
}

fn list_free(seen: &Vec<Seen>, actions: &Vec<Action>) -> (r: Vec<Row>)
    ensures
        r.deep_view() == free_rows(
            free_actions(all_seen(seen@), action_views(actions@), actions@.len()),
        ),
{
    let ghost all = all_seen(seen@);
    let ghost views = action_views(actions@);
    let mut free: Vec<Action> = Vec::new();
    let mut n: usize = 0;
    proof {
        assert(action_views(free@) =~= Seq::empty());
    }
    while n < actions.len()
        invariant
            n <= actions@.len(),
            all == all_seen(seen@),
            views == action_views(actions@),
            action_views(free@) == free_actions(all, views, n as nat),
        decreases actions@.len() - n,
    {
        let ghost before = action_views(free@);
        proof {
            assert(views[n as int] == crate::bindings::action_view(actions@[n as int]));
        }
        if !is_seen(seen, &actions[n].0) {
            let action: Action = copy_action(&actions[n]);
            free.push(action);
            proof {
                assert(action_views(free@) =~= before.push(crate::bindings::action_view(action)));
            }
        }
        n = n + 1;
    }
    let ghost left = action_views(free@);
    let mut keys: Vec<SortKey> = Vec::new();
    let mut n: usize = 0;
    while n < free.len()
        invariant
            n <= free@.len(),
            keys@.len() == n,
            left == action_views(free@),
            forall|i: int|
                0 <= i < n ==> key_view(#[trigger] keys@[i]) == action_key(left[i]),
        decreases free@.len() - n,
    {
        let text: String = free[n].0.text();
        let key: SortKey = (chars(text.as_str()), Vec::new());
        keys.push(key);
        proof {
            assert(key.1@ =~= Seq::empty());
            assert(left[n as int] == crate::bindings::action_view(free@[n as int]));
        }
        n = n + 1;
    }
    proof {
        assert(key_views(keys@) =~= left.map_values(|action: ActionView| action_key(action)));
    }
    let order: Vec<usize> = put_in_order(&keys);
    let mut rows: Vec<Row> = Vec::new();
    let mut n: usize = 0;
    while n < order.len()
        invariant
            n <= order@.len(),
            rows@.len() == n,
            left == action_views(free@),
            forall|i: int| 0 <= i < order@.len() ==> (#[trigger] order@[i]) < free@.len(),
            forall|i: int|
                0 <= i < n ==> (#[trigger] rows@[i]).deep_view() == free_row(
                    left[order@[i] as int],
                ),
        decreases order@.len() - n,
    {
        let action: &Action = &free[order[n]];
        let keys: Vec<KeyEvent> = Vec::new();
        proof {
            assert(keys@ =~= Seq::empty());
            assert(left[order@[n as int] as int] == crate::bindings::action_view(*action));
        }
        rows.push(Row::new(Where::Anywhere, keys, action.0.copy(), action.1.as_str()));
        n = n + 1;
    }
    proof {
        assert(rows.deep_view() =~= free_rows(left));
    }
    rows
}

/// Every line of the screen: the shortcuts, and then everything the editor can do that no
/// key reaches yet.
pub fn list_rows(maps: &Keymaps, never: &Vec<KeyEvent>, actions: &Vec<Action>) -> (r: Vec<Row>)
    ensures
        r.deep_view() == all_rows(maps.deep_view(), never@, action_views(actions@)),
{
    let seen: Vec<Seen> = see_all(maps, never);
    let bound: Vec<Row> = list_bound(&seen);
    let mut rows: Vec<Row> = sort_rows(&bound);
    let mut free: Vec<Row> = list_free(&seen, actions);
    let ghost (first, rest) = (rows, free);
    rows.append(&mut free);
    proof {
        assert(rows.deep_view() =~= first.deep_view() + rest.deep_view());
        assert(action_views(actions@).len() == actions@.len());
        assert(all_seen(seen@).len() == seen@.len());
    }
    rows
}

// ---------------------------------------------------------------------------------------
// The screen
// ---------------------------------------------------------------------------------------

/// The keys being pressed for a shortcut, and what they would cost.
#[derive(Debug)]
pub struct Capture {
    pub place: Where,
    pub runs: Runs,
    /// The action in words, for the box to name it.
    pub description: String,
    /// The keys it answers to now, which the new ones take the place of. Empty when no
    /// key reaches it yet, and then the new ones are simply added.
    pub was: Vec<KeyEvent>,
    pub keys: Vec<KeyEvent>,
    pub clash: Option<Clash>,
}

#[verifier::ext_equal]
pub struct CaptureView {
    pub place: Where,
    pub runs: RunsView,
    pub description: Seq<char>,
    pub was: Seq<KeyEvent>,
    pub keys: Seq<KeyEvent>,
    pub clash: Option<ClashView>,
}

impl DeepView for Capture {
    type V = CaptureView;

    open spec fn deep_view(&self) -> CaptureView {
        CaptureView {
            place: self.place,
            runs: self.runs.deep_view(),
            description: self.description@,
            was: self.was@,
            keys: self.keys@,
            clash: self.clash.deep_view(),
        }
    }
}

/// How many tabs there are: everything, the two worlds a shortcut can be tied to, and the
/// actions no key reaches yet.
pub const SCOPES: usize = 4;

#[derive(Debug)]
pub struct Shortcuts {
    pub rows: Vec<Row>,
    pub query: String,
    /// The tab in front.
    pub scope: usize,
    /// Which of the shown rows is in focus.
    pub cursor: usize,
    pub scroll: usize,
    pub page: usize,
    pub tabs: Vec<Rect>,
    /// Where each shown row was drawn, so a click can land on one.
    pub drawn: Vec<Rect>,
    /// The keymap as the editor is running it, so a clash is told from a free key.
    pub maps: Keymaps,
    /// The keys the editor ships with, so yours are told from its.
    pub sids: Keymaps,
    /// The keys this terminal never sends.
    pub never: Vec<KeyEvent>,
    /// Everything the editor can do.
    pub actions: Vec<Action>,
    pub capture: Option<Capture>,
    /// What just lost its shortcut, so the screen can put you on it.
    pub lost: Option<Runs>,
    /// What the last change did, said on the screen itself.
    pub said: Option<String>,
    /// Whether giving every shortcut back has been asked for once. It throws away every
    /// key you ever changed, so it is asked for twice.
    pub armed: bool,
}

#[verifier::ext_equal]
pub struct ScreenView {
    pub rows: Seq<RowView>,
    pub query: Seq<char>,
    pub scope: usize,
    pub cursor: usize,
    pub scroll: usize,
    pub page: usize,
    pub tabs: Seq<Rect>,
    pub drawn: Seq<Rect>,
    pub maps: KeymapsView,
    pub sids: KeymapsView,
    pub never: Seq<KeyEvent>,
    pub actions: Seq<ActionView>,
    pub capture: Option<CaptureView>,
    pub lost: Option<RunsView>,
    pub said: Option<Seq<char>>,
    pub armed: bool,
}

impl DeepView for Shortcuts {
    type V = ScreenView;

    open spec fn deep_view(&self) -> ScreenView {
        ScreenView {
            rows: self.rows.deep_view(),
            query: self.query@,
            scope: self.scope,
            cursor: self.cursor,
            scroll: self.scroll,
            page: self.page,
            tabs: self.tabs@,
            drawn: self.drawn@,
            maps: self.maps.deep_view(),
            sids: self.sids.deep_view(),
            never: self.never@,
            actions: action_views(self.actions@),
            capture: self.capture.deep_view(),
            lost: self.lost.deep_view(),
            said: self.said.deep_view(),
            armed: self.armed,
        }
    }
}

/// The name of a tab: the two worlds a key works in, both of them, and what no key reaches.
pub open spec fn scope_name(scope: int) -> Seq<char> {
    if scope == 0 {
        "All"@
    } else if scope == 1 {
        "Insert"@
    } else if scope == 2 {
        "Modal"@
    } else {
        "Unbound"@
    }
}

/// The tabs of the screen, by name.
pub fn scopes() -> (r: [&'static str; 4])
    ensures
        forall|scope: int| 0 <= scope < 4 ==> (#[trigger] r@[scope])@ == scope_name(scope),
{
    ["All", "Insert", "Modal", "Unbound"]
}

/// Whether a line belongs under a tab.
pub open spec fn in_scope(row: RowView, scope: usize) -> bool {
    if scope == 0 {
        true
    } else if scope == 3 {
        row.keys.len() == 0
    } else {
        row.scope == scope_name(scope as int)
    }
}

/// The lines among the first `n` that belong under a tab and have every word typed, by
/// number.
pub open spec fn rows_shown(
    rows: Seq<RowView>,
    scope: usize,
    words: Seq<Seq<char>>,
    n: nat,
) -> Seq<usize>
    decreases n,
{
    if n == 0 {
        Seq::empty()
    } else {
        let before = rows_shown(rows, scope, words, (n - 1) as nat);
        if in_scope(rows[n - 1], scope) && answers(rows[n - 1].search, words) {
            before.push((n - 1) as usize)
        } else {
            before
        }
    }
}

/// The first of the lines numbered in `shown`, from place `k` on, that runs `runs`, by its
/// place; or the end.
pub open spec fn place_of(rows: Seq<RowView>, shown: Seq<usize>, k: int, runs: RunsView) -> int
    decreases shown.len() - k,
{
    if k >= shown.len() {
        shown.len() as int
    } else if rows[shown[k] as int].runs == runs {
        k
    } else {
        place_of(rows, shown, k + 1, runs)
    }
}

/// What a keymap runs for keys, where it is one command and not the one that does nothing.
pub open spec fn command_run(map: Option<TrieView>, keys: Seq<KeyEvent>) -> Option<RunsView> {
    match map {
        Some(trie) => match searched(trie, keys) {
            Some(TrieView::Command(command)) => if command.is_no_op() {
                None
            } else {
                Some(RunsView::One(spelled(command)))
            },
            _ => None,
        },
        None => None,
    }
}

/// Whether a keymap runs anything for keys.
pub open spec fn runs_for(map: Option<TrieView>, keys: Seq<KeyEvent>) -> bool {
    match map {
        Some(trie) => match searched(trie, keys) {
            Some(TrieView::Command(command)) => !command.is_no_op(),
            Some(TrieView::Sequence(_)) => true,
            _ => false,
        },
        None => false,
    }
}

/// What the keys run in the first mode that a place reaches where they run a command.
pub open spec fn run_in(maps: KeymapsView, place: Where, keys: Seq<KeyEvent>) -> Option<RunsView> {
    let normal = if place.reaches(Mode::Normal) {
        command_run(maps.normal, keys)
    } else {
        None
    };
    let select = if place.reaches(Mode::Select) {
        command_run(maps.select, keys)
    } else {
        None
    };
    let insert = if place.reaches(Mode::Insert) {
        command_run(maps.insert, keys)
    } else {
        None
    };
    if normal is Some {
        normal
    } else if select is Some {
        select
    } else {
        insert
    }
}

pub open spec fn found_in(map: Option<TrieView>, keys: Seq<KeyEvent>) -> Option<TrieView> {
    match map {
        Some(trie) => searched(trie, keys),
        None => None,
    }
}

/// What the keys lead to in the first mode that a place reaches where they lead anywhere.
pub open spec fn first_found(maps: KeymapsView, place: Where, keys: Seq<KeyEvent>) -> Option<
    TrieView,
> {
    let normal = if place.reaches(Mode::Normal) {
        found_in(maps.normal, keys)
    } else {
        None
    };
    let select = if place.reaches(Mode::Select) {
        found_in(maps.select, keys)
    } else {
        None
    };
    let insert = if place.reaches(Mode::Insert) {
        found_in(maps.insert, keys)
    } else {
        None
    };
    if normal is Some {
        normal
    } else if select is Some {
        select
    } else {
        insert
    }
}

/// A key as `config.toml` spells it, which is how the keymap is asked about it: what the
/// terminal sends for Shift and a letter is the same shortcut either way.
pub open spec fn settled_key(key: KeyEvent) -> KeyEvent {
    match key.code {
        KeyCode::Char(c) => if key.modifiers.shift && ('a' <= c <= 'z' || 'A' <= c <= 'Z') {
            KeyEvent {
                code: KeyCode::Char(upper_ascii(c)),
                modifiers: KeyModifiers { shift: false, ..key.modifiers },
            }
        } else {
            key
        },
        _ => key,
    }
}

/// An ASCII small letter as its capital; any other character as it is.
pub open spec fn upper_ascii(c: char) -> char {
    if 'a' <= c <= 'z' {
        ((c as u32) - 32) as char
    } else {
        c
    }
}

pub fn settled(key: KeyEvent) -> (r: KeyEvent)
    ensures
        r == settled_key(key),
{
    if let KeyCode::Char(c) = key.code {
        if key.modifiers.shift && (('a' <= c && c <= 'z') || ('A' <= c && c <= 'Z')) {
            let capital: char = if 'a' <= c && c <= 'z' {
                ((c as u8) - 32) as char
            } else {
                c
            };
            return KeyEvent {
                code: KeyCode::Char(capital),
                modifiers: KeyModifiers { shift: false, ..key.modifiers },
            };
        }
    }
    key
}

/// A key that is settled stays as it is.
pub proof fn settling_is_settled(key: KeyEvent)
    ensures
        settled_key(settled_key(key)) == settled_key(key),
{
}

impl ScreenView {
    /// The tab in front is one of those there are, and so is every tab drawn.
    pub open spec fn wf(self) -> bool {
        self.scope < SCOPES && self.tabs.len() <= SCOPES
    }

    /// The list built again from the keymap, which is what a change is seen through.
    pub open spec fn gathered(self) -> ScreenView {
        ScreenView { rows: all_rows(self.maps, self.never, self.actions), ..self }
    }

    /// The rows the screen is showing, by number.
    pub open spec fn shown(self) -> Seq<usize> {
        rows_shown(self.rows, self.scope, words_of(lowercase_of(self.query)), self.rows.len())
    }

    /// The line in focus, by number.
    pub open spec fn in_focus(self) -> Option<int> {
        if self.cursor < self.shown().len() {
            Some(self.shown()[self.cursor as int] as int)
        } else {
            None
        }
    }

    /// The screen scrolled so that the row in focus, of `count`, is on it.
    pub open spec fn followed(self, count: int) -> ScreenView {
        let page = max(self.page as int, 1);
        let scroll = if self.cursor < self.scroll {
            self.cursor as int
        } else if self.cursor >= self.scroll + page {
            self.cursor + 1 - page
        } else {
            self.scroll as int
        };
        ScreenView { scroll: min(scroll, less(count, page)) as usize, ..self }
    }

    /// The focus moved by `delta` rows, as far as there are rows.
    pub open spec fn walked(self, delta: int) -> ScreenView {
        let count = self.shown().len() as int;
        if count == 0 {
            ScreenView { cursor: 0, ..self }
        } else {
            (ScreenView {
                cursor: min(max(self.cursor + delta, 0), count - 1) as usize,
                ..self
            }).followed(count)
        }
    }

    /// The list scrolled by `delta` rows, as far as there are rows.
    pub open spec fn scrolled(self, delta: int) -> ScreenView {
        ScreenView {
            scroll: min(
                max(self.scroll + delta, 0),
                less(self.shown().len() as int, self.page as int),
            ) as usize,
            ..self
        }
    }

    /// Whether the keys are the editor's own doing, which is what tells taking one away
    /// from giving one back.
    pub open spec fn is_sids(self, place: Where, keys: Seq<KeyEvent>) -> bool {
        ||| place.reaches(Mode::Normal) && runs_for(self.sids.normal, keys)
        ||| place.reaches(Mode::Select) && runs_for(self.sids.select, keys)
        ||| place.reaches(Mode::Insert) && runs_for(self.sids.insert, keys)
    }

    /// The screen asking for the keys of the row in focus. A shortcut that is given here is
    /// given everywhere; one that already belongs to a world of its own stays in it.
    pub open spec fn started(self) -> ScreenView {
        match self.in_focus() {
            None => self,
            Some(index) => {
                let row = self.rows[index];
                ScreenView {
                    capture: Some(
                        CaptureView {
                            place: row.place,
                            runs: row.runs,
                            description: row.description,
                            was: row.keys,
                            keys: Seq::empty(),
                            clash: None,
                        },
                    ),
                    ..self
                }
            },
        }
    }

    /// What the keys pressed so far stand to cost. A shortcut is never in its own way:
    /// pressing the keys it already has says nothing, because nothing would change.
    pub open spec fn weighed(self) -> ScreenView {
        match self.capture {
            None => self,
            Some(capture) => ScreenView {
                capture: Some(
                    CaptureView {
                        clash: if capture.was == capture.keys {
                            None
                        } else {
                            in_the_way(self.maps, capture.place, capture.keys, self.never)
                        },
                        ..capture
                    },
                ),
                ..self
            },
        }
    }

    /// One more key pressed towards a shortcut, and what it would cost.
    pub open spec fn pressed(self, key: KeyEvent) -> ScreenView {
        match self.capture {
            None => self,
            Some(capture) => (ScreenView {
                capture: Some(
                    CaptureView { keys: capture.keys.push(settled_key(key)), ..capture },
                ),
                ..self
            }).weighed(),
        }
    }

    /// The last key pressed taken back.
    pub open spec fn unpressed(self) -> ScreenView {
        match self.capture {
            None => self,
            Some(capture) => (ScreenView {
                capture: Some(
                    CaptureView {
                        keys: if capture.keys.len() > 0 {
                            capture.keys.drop_last()
                        } else {
                            capture.keys
                        },
                        ..capture
                    },
                ),
                ..self
            }).weighed(),
        }
    }

    /// The focus on whatever just lost its keys, so it can be given others.
    pub open spec fn pointed_at_lost(self) -> ScreenView {
        match self.lost {
            None => self,
            Some(lost) => {
                let rest = ScreenView { lost: None, ..self };
                let at = place_of(self.rows, self.shown(), 0, lost);
                if at < self.shown().len() {
                    (ScreenView { cursor: at as usize, ..rest }).followed(
                        self.shown().len() as int,
                    )
                } else {
                    rest
                }
            },
        }
    }

    /// The list from its top again, under another tab or other words.
    pub open spec fn from_top(self) -> ScreenView {
        ScreenView { scroll: 0, cursor: 0, ..self }
    }
}

/// The row in focus is on screen once the screen has followed it.
pub proof fn the_focus_is_on_screen(screen: ScreenView, count: int)
    requires
        screen.cursor < count,
    ensures
        ({
            let after = screen.followed(count);
            after.scroll <= after.cursor < after.scroll + max(screen.page as int, 1)
        }),
{
}

impl Shortcuts {
    /// Lists the shortcuts there are now.
    pub fn gather(&mut self)
        ensures
            final(self).deep_view() == old(self).deep_view().gathered(),
    {
        let ghost was = self.deep_view();
        let rows: Vec<Row> = list_rows(&self.maps, &self.never, &self.actions);
        self.rows = rows;
        proof {
            assert(self.deep_view() =~= was.gathered());
        }
    }

    /// The screen over the keymap the editor is running. `sids` is the keymap it ships
    /// with, `never` the keys this terminal never sends, `actions` everything there is to
    /// run.
    pub fn new(maps: &Keymaps, sids: Keymaps, never: Vec<KeyEvent>, actions: Vec<Action>) -> (r:
        Shortcuts)
        ensures
            r.deep_view() == (ScreenView {
                rows: Seq::empty(),
                query: Seq::empty(),
                scope: 0,
                cursor: 0,
                scroll: 0,
                page: 1,
                tabs: Seq::empty(),
                drawn: Seq::empty(),
                maps: maps.deep_view(),
                sids: sids.deep_view(),
                never: never@,
                actions: action_views(actions@),
                capture: None,
                lost: None,
                said: None,
                armed: false,
            }).gathered(),
            r.deep_view().wf(),
    {
        let mut screen: Shortcuts = Shortcuts {
            rows: Vec::new(),
            query: String::new(),
            scope: 0,
            cursor: 0,
            scroll: 0,
            page: 1,
            tabs: Vec::new(),
            drawn: Vec::new(),
            maps: maps.copy(),
            sids,
            never,
            actions,
            capture: None,
            lost: None,
            said: None,
            armed: false,
        };
        proof {
            assert(screen.rows.deep_view() =~= Seq::empty());
        }
        screen.gather();
        screen
    }

    /// The rows the screen is showing, as numbers of all of them.
    pub fn shown(&self) -> (r: Vec<usize>)
        requires
            self.deep_view().wf(),
        ensures
            r@ == self.deep_view().shown(),
            forall|i: int| 0 <= i < r@.len() ==> (#[trigger] r@[i]) < self.rows@.len(),
    {
        let query: String = to_lowercase(self.query.as_str());
        let letters: Vec<char> = chars(query.as_str());
        let words: Vec<String> = split_words(letters.as_slice());
        let ghost all = self.rows.deep_view();
        let ghost typed = words_of(lowercase_of(self.query@));
        let mut shown: Vec<usize> = Vec::new();
        let mut n: usize = 0;
        while n < self.rows.len()
            invariant
                n <= self.rows@.len(),
                self.deep_view().wf(),
                all == self.rows.deep_view(),
                words.deep_view() == typed,
                shown@ == rows_shown(all, self.scope, typed, n as nat),
                forall|i: int| 0 <= i < shown@.len() ==> (#[trigger] shown@[i]) < n,
            decreases self.rows@.len() - n,
        {
            let row: &Row = &self.rows[n];
            proof {
                assert(all[n as int] == row.deep_view());
            }
            let belongs: bool = if self.scope == 0 {
                true
            } else if self.scope == 3 {
                row.keys.len() == 0
            } else if self.scope == 1 {
                same_str(row.scope.as_str(), "Insert")
            } else {
                same_str(row.scope.as_str(), "Modal")
            };
            if belongs && has_words(row.search.as_str(), &words) {
                shown.push(n);
            }
            n = n + 1;
        }
        shown
    }

    fn follow(&mut self, count: usize)
        ensures
            final(self).deep_view() == old(self).deep_view().followed(count as int),
    {
        let ghost was = self.deep_view();
        let page: usize = if self.page == 0 {
            1
        } else {
            self.page
        };
        if self.cursor < self.scroll {
            self.scroll = self.cursor;
        } else if self.cursor - self.scroll >= page {
            self.scroll = self.cursor - (page - 1);
        }
        let most: usize = count.saturating_sub(page);
        if self.scroll > most {
            self.scroll = most;
        }
        proof {
            assert(self.deep_view() =~= was.followed(count as int));
        }
    }

    fn walk_cursor(&mut self, delta: isize)
        requires
            old(self).deep_view().wf(),
        ensures
            final(self).deep_view() == old(self).deep_view().walked(delta as int),
    {
        let ghost was = self.deep_view();
        let count: usize = self.shown().len();
        if count == 0 {
            self.cursor = 0;
            proof {
                assert(self.deep_view() =~= was.walked(delta as int));
            }
            return ;
        }
        let moved: usize = if delta >= 0 {
            self.cursor.saturating_add(delta as usize)
        } else {
            self.cursor.saturating_sub((-(delta + 1)) as usize).saturating_sub(1)
        };
        self.cursor = if moved < count - 1 {
            moved
        } else {
            count - 1
        };
        proof {
            assert(self.deep_view() =~= (ScreenView {
                cursor: min(max(was.cursor + delta, 0), count - 1) as usize,
                ..was
            }));
        }
        self.follow(count);
    }

    fn scroll(&mut self, delta: isize)
        requires
            old(self).deep_view().wf(),
        ensures
            final(self).deep_view() == old(self).deep_view().scrolled(delta as int),
    {
        let ghost was = self.deep_view();
        let count: usize = self.shown().len();
        let most: usize = count.saturating_sub(self.page);
        let moved: usize = if delta >= 0 {
            self.scroll.saturating_add(delta as usize)
        } else {
            self.scroll.saturating_sub((-(delta + 1)) as usize).saturating_sub(1)
        };
        self.scroll = if moved < most {
            moved
        } else {
            most
        };
        proof {
            assert(self.deep_view() =~= was.scrolled(delta as int));
        }
    }

    /// Starts giving the row in focus a shortcut.
    pub fn start(&mut self)
        requires
            old(self).deep_view().wf(),
        ensures
            final(self).deep_view() == old(self).deep_view().started(),
    {
        let ghost was = self.deep_view();
        let shown: Vec<usize> = self.shown();
        if self.cursor >= shown.len() {
            return ;
        }
        let row: &Row = &self.rows[shown[self.cursor]];
        proof {
            assert(was.rows[shown@[self.cursor as int] as int] == row.deep_view());
        }
        let capture: Capture = Capture {
            place: row.place,
            runs: row.runs.copy(),
            description: row.description.clone(),
            was: copy_keys(row.keys.as_slice()),
            keys: Vec::new(),
            clash: None,
        };
        proof {
            assert(capture.keys@ =~= Seq::empty());
        }
        self.capture = Some(capture);
        proof {
            assert(self.deep_view() =~= was.started());
        }
    }

    fn find_place(&self, shown: &Vec<usize>, runs: &Runs) -> (r: usize)
        requires
            forall|i: int| 0 <= i < shown@.len() ==> (#[trigger] shown@[i]) < self.rows@.len(),
        ensures
            r == place_of(self.rows.deep_view(), shown@, 0, runs.deep_view()),
            r <= shown@.len(),
    {
        let ghost all = self.rows.deep_view();
        let mut k: usize = 0;
        while k < shown.len()
            invariant
                k <= shown@.len(),
                all == self.rows.deep_view(),
                forall|i: int| 0 <= i < shown@.len() ==> (#[trigger] shown@[i]) < self.rows@.len(),
                place_of(all, shown@, 0, runs.deep_view()) == place_of(
                    all,
                    shown@,
                    k as int,
                    runs.deep_view(),
                ),
            decreases shown@.len() - k,
        {
            proof {
                assert(all[shown@[k as int] as int]
                    == self.rows@[shown@[k as int] as int].deep_view());
            }
            if self.rows[shown[k]].runs.same(runs) {
                return k;
            }
            k = k + 1;
        }
        k
    }

    /// The same screen, already asking for the keys to give to `runs`: its own line if a
    /// key already reaches it, and the one it waits on if none does.
    pub fn giving(
        maps: &Keymaps,
        sids: Keymaps,
        never: Vec<KeyEvent>,
        actions: Vec<Action>,
        runs: &Runs,
    ) -> (r: Shortcuts)
        ensures
            ({
                let fresh = (ScreenView {
                    rows: Seq::empty(),
                    query: Seq::empty(),
                    scope: 0,
                    cursor: 0,
                    scroll: 0,
                    page: 1,
                    tabs: Seq::empty(),
                    drawn: Seq::empty(),
                    maps: maps.deep_view(),
                    sids: sids.deep_view(),
                    never: never@,
                    actions: action_views(actions@),
                    capture: None,
                    lost: None,
                    said: None,
                    armed: false,
                }).gathered();
                let at = place_of(fresh.rows, fresh.shown(), 0, runs.deep_view());
                r.deep_view() == if at < fresh.shown().len() {
                    (ScreenView { cursor: at as usize, ..fresh }).followed(
                        fresh.shown().len() as int,
                    ).started()
                } else {
                    fresh
                }
            }),
    {
        let mut screen: Shortcuts = Shortcuts::new(maps, sids, never, actions);
        let ghost fresh = screen.deep_view();
        let shown: Vec<usize> = screen.shown();
        let at: usize = screen.find_place(&shown, runs);
        if at < shown.len() {
            screen.cursor = at;
            proof {
                assert(screen.deep_view() =~= (ScreenView { cursor: at, ..fresh }));
            }
            screen.follow(shown.len());
            screen.start();
        }
        screen
    }

    fn weigh(&mut self)
        ensures
            final(self).deep_view() == old(self).deep_view().weighed(),
    {
        let ghost was = self.deep_view();
        let capture: Option<Capture> = self.capture.take();
        if let Some(mut capture) = capture {
            capture.clash = if same_keys(capture.was.as_slice(), capture.keys.as_slice()) {
                None
            } else {
                clash(&self.maps, capture.place, capture.keys.as_slice(), &self.never)
            };
            self.capture = Some(capture);
        }
        proof {
            assert(self.deep_view() =~= was.weighed());
        }
    }

    /// One more key pressed towards a shortcut, and what it would cost.
    pub fn press(&mut self, key: KeyEvent)
        ensures
            final(self).deep_view() == old(self).deep_view().pressed(key),
    {
        let ghost was = self.deep_view();
        let capture: Option<Capture> = self.capture.take();
        match capture {
            Some(mut capture) => {
                capture.keys.push(settled(key));
                self.capture = Some(capture);
                proof {
                    assert(self.deep_view() =~= (ScreenView {
                        capture: Some(
                            CaptureView {
                                keys: was.capture->0.keys.push(settled_key(key)),
                                ..was.capture->0
                            },
                        ),
                        ..was
                    }));
                }
                self.weigh();
            },
            None => {
                proof {
                    assert(self.deep_view() =~= was);
                }
            },
        }
    }

    fn unpress(&mut self)
        ensures
            final(self).deep_view() == old(self).deep_view().unpressed(),
    {
        let ghost was = self.deep_view();
        let capture: Option<Capture> = self.capture.take();
        match capture {
            Some(mut capture) => {
                if capture.keys.len() > 0 {
                    let _ = capture.keys.pop();
                }
                self.capture = Some(capture);
                proof {
                    assert(self.deep_view() =~= (ScreenView {
                        capture: Some(
                            CaptureView {
                                keys: if was.capture->0.keys.len() > 0 {
                                    was.capture->0.keys.drop_last()
                                } else {
                                    was.capture->0.keys
                                },
                                ..was.capture->0
                            },
                        ),
                        ..was
                    }));
                }
                self.weigh();
            },
            None => {
                proof {
                    assert(self.deep_view() =~= was);
                }
            },
        }
    }
}

// ---------------------------------------------------------------------------------------
// Changes
// ---------------------------------------------------------------------------------------

/// A shortcut to be given: what is written to `config.toml`, and what it takes the place
/// of.
#[derive(Debug)]
pub struct Change {
    pub place: Where,
    pub runs: Runs,
    pub description: String,
    pub was: Vec<KeyEvent>,
    pub keys: Vec<KeyEvent>,
    /// The action that had the keys.
    pub taken: Option<String>,
}

#[verifier::ext_equal]
pub struct ChangeView {
    pub place: Where,
    pub runs: RunsView,
    pub description: Seq<char>,
    pub was: Seq<KeyEvent>,
    pub keys: Seq<KeyEvent>,
    pub taken: Option<Seq<char>>,
}

impl DeepView for Change {
    type V = ChangeView;

    open spec fn deep_view(&self) -> ChangeView {
        ChangeView {
            place: self.place,
            runs: self.runs.deep_view(),
            description: self.description@,
            was: self.was@,
            keys: self.keys@,
            taken: self.taken.deep_view(),
        }
    }
}

impl ChangeView {
    /// Whether the keys it answered to before stop reaching it. Changing a shortcut changes
    /// it: the line you edited would else still be there beside the new one.
    pub open spec fn replaces(self) -> bool {
        self.was.len() > 0 && self.was != self.keys
    }

    /// What is said of it once it is made.
    pub open spec fn says(self) -> Seq<char> {
        let was = if self.replaces() {
            ", and not "@ + path_label(self.was) + " any more"@
        } else {
            Seq::empty()
        };
        match self.taken {
            Some(what) => path_label(self.keys) + " runs «"@ + self.description + "» now"@ + was
                + " · «"@ + what + "» is left without it"@,
            None => path_label(self.keys) + " runs «"@ + self.description + "»"@ + was,
        }
    }
}

/// What is left to do once a shortcut was written down.
#[derive(Debug, Clone, Copy, PartialEq, Eq, Structural)]
pub enum Next {
    /// Nothing: it was not written, or runs nothing there is.
    Stop,
    /// The keys it answered to before are to be erased from `config.toml`; whether they are
    /// the editor's own.
    Erase(bool),
    Settle,
}

pub open spec fn capture_taken(capture: CaptureView) -> Option<Seq<char>> {
    match capture.clash {
        Some(ClashView::Taken { what }) => Some(what),
        _ => None,
    }
}

pub open spec fn change_of(capture: CaptureView) -> ChangeView {
    ChangeView {
        place: capture.place,
        runs: capture.runs,
        description: capture.description,
        was: capture.was,
        keys: capture.keys,
        taken: capture_taken(capture),
    }
}

impl ScreenView {
    /// The screen with the capture over, and what is to be written for it.
    pub open spec fn giving_up_capture(self) -> (ScreenView, Option<ChangeView>) {
        let over = ScreenView { capture: None, ..self };
        match self.capture {
            Some(capture) => if capture.keys.len() == 0 {
                (over, None)
            } else {
                (
                    // What the keys used to run, so the screen can offer it another one.
                    ScreenView {
                        lost: run_in(self.maps, capture.place, capture.keys),
                        ..over
                    },
                    Some(change_of(capture)),
                )
            },
            None => (over, None),
        }
    }

    /// The screen once a shortcut was written down, or was not.
    pub open spec fn given(
        self,
        change: ChangeView,
        written: Result<(), Seq<char>>,
        known: KnownView,
    ) -> (ScreenView, Next) {
        match written {
            Err(flaw) => (
                ScreenView { said: Some("Not written down: "@ + flaw), ..self },
                Next::Stop,
            ),
            Ok(_) => match change.runs.trie(known) {
                Err(unknown) => (
                    ScreenView { said: Some("No command named '"@ + unknown + "'"@), ..self },
                    Next::Stop,
                ),
                Ok(trie) => (
                    ScreenView {
                        maps: maps_with_set(self.maps, change.place, change.keys, trie),
                        ..self
                    },
                    if change.replaces() {
                        Next::Erase(self.is_sids(change.place, change.was))
                    } else {
                        Next::Settle
                    },
                ),
            },
        }
    }

    /// The screen once a change is made; `erased` says whether the keys it answered to
    /// before are gone from `config.toml`.
    pub open spec fn settled(self, change: ChangeView, erased: bool) -> ScreenView {
        let rest = if change.replaces() && erased {
            ScreenView { maps: maps_without(self.maps, change.place, change.was), ..self }
        } else {
            self
        };
        (ScreenView { said: Some(change.says()), ..rest.gathered() }).pointed_at_lost()
    }

    /// The screen once the keys of a line were taken away, or were not.
    pub open spec fn taken_away(
        self,
        place: Where,
        keys: Seq<KeyEvent>,
        description: Seq<char>,
        written: Result<(), Seq<char>>,
    ) -> ScreenView {
        match written {
            Err(flaw) => ScreenView { said: Some("Not written down: "@ + flaw), ..self },
            Ok(_) => ScreenView {
                said: Some("«"@ + description + "» has no shortcut now"@),
                ..(ScreenView { maps: maps_without(self.maps, place, keys), ..self }).gathered()
            },
        }
    }

    /// The screen once keys were given back, or were not.
    pub open spec fn given_back(
        self,
        place: Where,
        keys: Seq<KeyEvent>,
        written: Result<(), Seq<char>>,
    ) -> ScreenView {
        match written {
            Err(flaw) => ScreenView { said: Some("Not written down: "@ + flaw), ..self },
            Ok(_) => match first_found(self.sids, place, keys) {
                Some(trie) => ScreenView {
                    said: Some(path_label(keys) + " is «"@ + in_words(trie) + "» again"@),
                    ..(ScreenView {
                        maps: maps_with_set(self.maps, place, keys, trie),
                        ..self
                    }).gathered()
                },
                None => ScreenView {
                    said: Some(path_label(keys) + " is free again"@),
                    ..(ScreenView { maps: maps_without(self.maps, place, keys), ..self }).gathered()
                },
            },
        }
    }

    /// The screen once every shortcut was given back, or was not.
    pub open spec fn all_given_back(self, written: Result<(), Seq<char>>) -> ScreenView {
        match written {
            Err(flaw) => ScreenView { said: Some("Not written down: "@ + flaw), ..self },
            Ok(_) => ScreenView {
                said: Some("Every shortcut is sid's own again"@),
                ..(ScreenView { maps: self.sids, ..self }).gathered()
            },
        }
    }
}

pub open spec fn outcome_of(written: Result<(), String>) -> Result<(), Seq<char>> {
    match written {
        Ok(_) => Ok(()),
        Err(flaw) => Err(flaw@),
    }
}

fn find_run(map: Option<&KeyTrie>, keys: &[KeyEvent]) -> (r: Option<Runs>)
    ensures
        r.deep_view() == command_run(
            match map {
                Some(trie) => Some(trie.deep_view()),
                None => None,
            },
            keys@,
        ),
{
    match map {
        Some(trie) => match trie.search(keys) {
            Some(KeyTrie::MappableCommand(command)) => {
                if command.is_no_op() {
                    None
                } else {
                    Some(Runs::of(command))
                }
            },
            Some(KeyTrie::Node(node)) => {
                proof {
                    lemma_node_view(*node);
                }
                None
            },
            _ => None,
        },
        None => None,
    }
}

fn is_run(map: Option<&KeyTrie>, keys: &[KeyEvent]) -> (r: bool)
    ensures
        r == runs_for(
            match map {
                Some(trie) => Some(trie.deep_view()),
                None => None,
            },
            keys@,
        ),
{
    match map {
        Some(trie) => match trie.search(keys) {
            Some(KeyTrie::MappableCommand(command)) => !command.is_no_op(),
            Some(KeyTrie::Sequence(_)) => true,
            Some(KeyTrie::Node(node)) => {
                proof {
                    lemma_node_view(*node);
                }
                false
            },
            None => false,
        },
        None => false,
    }
}

fn find_in(map: Option<&KeyTrie>, keys: &[KeyEvent]) -> (r: Option<KeyTrie>)
    ensures
        r.deep_view() == found_in(
            match map {
                Some(trie) => Some(trie.deep_view()),
                None => None,
            },
            keys@,
        ),
{
    match map {
        Some(trie) => match trie.search(keys) {
            Some(found) => Some(found.copy()),
            None => None,
        },
        None => None,
    }
}

fn reaches(place: Where, mode: Mode) -> (r: bool)
    ensures
        r == place.reaches(mode),
{
    match place {
        Where::Anywhere => true,
        Where::Insert => mode == Mode::Insert,
        Where::Modal { normal, select } => match mode {
            Mode::Normal => normal,
            Mode::Select => select,
            Mode::Insert => false,
        },
    }
}

fn find_run_in(maps: &Keymaps, place: Where, keys: &[KeyEvent]) -> (r: Option<Runs>)
    ensures
        r.deep_view() == run_in(maps.deep_view(), place, keys@),
{
    if reaches(place, Mode::Normal) {
        let found: Option<Runs> = find_run(maps.get(Mode::Normal), keys);
        if found.is_some() {
            return found;
        }
    }
    if reaches(place, Mode::Select) {
        let found: Option<Runs> = find_run(maps.get(Mode::Select), keys);
        if found.is_some() {
            return found;
        }
    }
    if reaches(place, Mode::Insert) {
        find_run(maps.get(Mode::Insert), keys)
    } else {
        None
    }
}

fn find_first(maps: &Keymaps, place: Where, keys: &[KeyEvent]) -> (r: Option<KeyTrie>)
    ensures
        r.deep_view() == first_found(maps.deep_view(), place, keys@),
{
    if reaches(place, Mode::Normal) {
        let found: Option<KeyTrie> = find_in(maps.get(Mode::Normal), keys);
        if found.is_some() {
            return found;
        }
    }
    if reaches(place, Mode::Select) {
        let found: Option<KeyTrie> = find_in(maps.get(Mode::Select), keys);
        if found.is_some() {
            return found;
        }
    }
    if reaches(place, Mode::Insert) {
        find_in(maps.get(Mode::Insert), keys)
    } else {
        None
    }
}

fn say(before: &str, what: &str, after: &str) -> (r: String)
    ensures
        r@ == before@ + what@ + after@,
{
    let mut words: Vec<char> = chars(before);
    append_str(&mut words, what);
    append_str(&mut words, after);
    string(words.as_slice())
}

fn say_change(change: &Change) -> (r: String)
    ensures
        r@ == change.deep_view().says(),
{
    let keys: String = key_path(change.keys.as_slice());
    let mut words: Vec<char> = chars(keys.as_str());
    append_str(&mut words, " runs «");
    append_str(&mut words, change.description.as_str());
    if change.taken.is_some() {
        append_str(&mut words, "» now");
    } else {
        append_str(&mut words, "»");
    }
    if change.was.len() > 0 && !same_keys(change.was.as_slice(), change.keys.as_slice()) {
        let was: String = key_path(change.was.as_slice());
        append_str(&mut words, ", and not ");
        append_str(&mut words, was.as_str());
        append_str(&mut words, " any more");
    }
    if let Some(what) = &change.taken {
        append_str(&mut words, " · «");
        append_str(&mut words, what.as_str());
        append_str(&mut words, "» is left without it");
    }
    proof {
        assert(words@ =~= change.deep_view().says());
    }
    string(words.as_slice())
}

impl Shortcuts {
    fn sids_own(&self, place: Where, keys: &[KeyEvent]) -> (r: bool)
        ensures
            r == self.deep_view().is_sids(place, keys@),
    {
        (reaches(place, Mode::Normal) && is_run(self.sids.get(Mode::Normal), keys)) || (reaches(
            place,
            Mode::Select,
        ) && is_run(self.sids.get(Mode::Select), keys)) || (reaches(place, Mode::Insert)
            && is_run(self.sids.get(Mode::Insert), keys))
    }

    /// Takes the keys that were captured: what is to be written to `config.toml` for them,
    /// if any were pressed.
    pub fn give(&mut self) -> (r: Option<Change>)
        ensures
            (final(self).deep_view(), r.deep_view()) == old(self).deep_view().giving_up_capture(),
    {
        let ghost was = self.deep_view();
        let capture: Option<Capture> = self.capture.take();
        match capture {
            Some(capture) => {
                if capture.keys.len() == 0 {
                    proof {
                        assert(self.deep_view() =~= was.giving_up_capture().0);
                    }
                    return None;
                }
                let taken: Option<String> = match &capture.clash {
                    Some(Clash::Taken { what }) => Some(what.clone()),
                    _ => None,
                };
                self.lost = find_run_in(&self.maps, capture.place, capture.keys.as_slice());
                proof {
                    assert(self.deep_view() =~= was.giving_up_capture().0);
                }
                Some(
                    Change {
                        place: capture.place,
                        runs: capture.runs,
                        description: capture.description,
                        was: capture.was,
                        keys: capture.keys,
                        taken,
                    },
                )
            },
            None => {
                proof {
                    assert(self.deep_view() =~= was.giving_up_capture().0);
                }
                None
            },
        }
    }

    /// A shortcut was written to `config.toml`, or was not: the keymap on screen takes it.
    pub fn gave(
        &mut self,
        change: &Change,
        written: Result<(), String>,
        known: &Vec<(String, MappableCommand)>,
    ) -> (r: Next)
        ensures
            (final(self).deep_view(), r) == old(self).deep_view().given(
                change.deep_view(),
                outcome_of(written),
                known.deep_view(),
            ),
    {
        let ghost was = self.deep_view();
        if let Err(flaw) = written {
            let mut words: Vec<char> = chars("Not written down: ");
            append_str(&mut words, flaw.as_str());
            self.said = Some(string(words.as_slice()));
            proof {
                assert(self.deep_view() =~= was.given(
                    change.deep_view(),
                    outcome_of(written),
                    known.deep_view(),
                ).0);
            }
            return Next::Stop;
        }
        let trie: KeyTrie = match change.runs.trie(known) {
            Ok(trie) => trie,
            Err(unknown) => {
                self.said = Some(say("No command named '", unknown.as_str(), "'"));
                proof {
                    assert(self.deep_view() =~= was.given(
                        change.deep_view(),
                        outcome_of(written),
                        known.deep_view(),
                    ).0);
                }
                return Next::Stop;
            },
        };
        let replaces: bool = change.was.len() > 0 && !same_keys(
            change.was.as_slice(),
            change.keys.as_slice(),
        );
        let next: Next = if replaces {
            Next::Erase(self.sids_own(change.place, change.was.as_slice()))
        } else {
            Next::Settle
        };
        crate::bindings::set(&mut self.maps, change.place, change.keys.as_slice(), &trie);
        proof {
            assert(self.deep_view() =~= was.given(
                change.deep_view(),
                outcome_of(written),
                known.deep_view(),
            ).0);
        }
        next
    }

    /// The change is made; `erased` says whether the keys it answered to before are gone
    /// from `config.toml`.
    pub fn settle(&mut self, change: &Change, erased: bool)
        requires
            old(self).deep_view().wf(),
        ensures
            final(self).deep_view() == old(self).deep_view().settled(change.deep_view(), erased),
    {
        let ghost was = self.deep_view();
        if change.was.len() > 0 && !same_keys(change.was.as_slice(), change.keys.as_slice())
            && erased {
            unset(&mut self.maps, change.place, change.was.as_slice());
            proof {
                assert(self.deep_view() =~= (ScreenView {
                    maps: maps_without(was.maps, change.place, change.was@),
                    ..was
                }));
            }
        }
        self.gather();
        let ghost gathered = self.deep_view();
        self.said = Some(say_change(change));
        proof {
            assert(self.deep_view() =~= (ScreenView {
                said: Some(change.deep_view().says()),
                ..gathered
            }));
        }
        self.point_at_lost();
    }

    fn point_at_lost(&mut self)
        requires
            old(self).deep_view().wf(),
        ensures
            final(self).deep_view() == old(self).deep_view().pointed_at_lost(),
    {
        let ghost was = self.deep_view();
        let lost: Option<Runs> = self.lost.take();
        if let Some(lost) = lost {
            let shown: Vec<usize> = self.shown();
            let at: usize = self.find_place(&shown, &lost);
            let ghost rest = self.deep_view();
            proof {
                assert(rest =~= (ScreenView { lost: None, ..was }));
            }
            if at < shown.len() {
                self.cursor = at;
                proof {
                    assert(self.deep_view() =~= (ScreenView { cursor: at, ..rest }));
                }
                self.follow(shown.len());
            }
        } else {
            proof {
                assert(self.deep_view() =~= was);
            }
        }
    }

    /// The shortcut in focus, to be taken away: where it works, its keys, what it does, and
    /// whether it is the editor's own.
    pub fn take_away(&self) -> (r: Option<(Where, Vec<KeyEvent>, String, bool)>)
        requires
            self.deep_view().wf(),
        ensures
            match self.deep_view().in_focus() {
                Some(index) => {
                    let row = self.deep_view().rows[index];
                    if row.keys.len() == 0 {
                        r is None
                    } else {
                        r is Some && (r->0).0 == row.place && (r->0).1@ == row.keys && (r->0).2@
                            == row.description && (r->0).3 == self.deep_view().is_sids(
                            row.place,
                            row.keys,
                        )
                    }
                },
                None => r is None,
            },
    {
        let shown: Vec<usize> = self.shown();
        if self.cursor >= shown.len() {
            return None;
        }
        let row: &Row = &self.rows[shown[self.cursor]];
        proof {
            assert(self.deep_view().rows[shown@[self.cursor as int] as int] == row.deep_view());
        }
        if row.keys.len() == 0 {
            return None;
        }
        let own: bool = self.sids_own(row.place, row.keys.as_slice());
        Some((row.place, copy_keys(row.keys.as_slice()), row.description.clone(), own))
    }

    /// A shortcut was erased from `config.toml`, or was not.
    pub fn took_away(
        &mut self,
        place: Where,
        keys: &[KeyEvent],
        description: &str,
        written: Result<(), String>,
    )
        ensures
            final(self).deep_view() == old(self).deep_view().taken_away(
                place,
                keys@,
                description@,
                outcome_of(written),
            ),
    {
        let ghost was = self.deep_view();
        if let Err(flaw) = written {
            let mut words: Vec<char> = chars("Not written down: ");
            append_str(&mut words, flaw.as_str());
            self.said = Some(string(words.as_slice()));
        } else {
            unset(&mut self.maps, place, keys);
            proof {
                assert(self.deep_view() =~= (ScreenView {
                    maps: maps_without(was.maps, place, keys@),
                    ..was
                }));
            }
            self.gather();
            self.said = Some(say("«", description, "» has no shortcut now"));
        }
        proof {
            assert(self.deep_view() =~= was.taken_away(
                place,
                keys@,
                description@,
                outcome_of(written),
            ));
        }
    }

    /// Keys were given back to the editor in `config.toml`, or were not.
    pub fn gave_back(&mut self, place: Where, keys: &[KeyEvent], written: Result<(), String>)
        ensures
            final(self).deep_view() == old(self).deep_view().given_back(
                place,
                keys@,
                outcome_of(written),
            ),
    {
        let ghost was = self.deep_view();
        if let Err(flaw) = written {
            let mut words: Vec<char> = chars("Not written down: ");
            append_str(&mut words, flaw.as_str());
            self.said = Some(string(words.as_slice()));
            proof {
                assert(self.deep_view() =~= was.given_back(place, keys@, outcome_of(written)));
            }
            return ;
        }
        let given: Option<KeyTrie> = find_first(&self.sids, place, keys);
        let path: String = key_path(keys);
        match &given {
            Some(trie) => {
                crate::bindings::set(&mut self.maps, place, keys, trie);
                proof {
                    assert(self.deep_view() =~= (ScreenView {
                        maps: maps_with_set(was.maps, place, keys@, trie.deep_view()),
                        ..was
                    }));
                }
                self.gather();
                let words: String = describes(trie);
                let mut said: Vec<char> = chars(path.as_str());
                append_str(&mut said, " is «");
                append_str(&mut said, words.as_str());
                append_str(&mut said, "» again");
                self.said = Some(string(said.as_slice()));
            },
            None => {
                unset(&mut self.maps, place, keys);
                proof {
                    assert(self.deep_view() =~= (ScreenView {
                        maps: maps_without(was.maps, place, keys@),
                        ..was
                    }));
                }
                self.gather();
                let mut said: Vec<char> = chars(path.as_str());
                append_str(&mut said, " is free again");
                self.said = Some(string(said.as_slice()));
            },
        }
        proof {
            assert(self.deep_view() =~= was.given_back(place, keys@, outcome_of(written)));
        }
    }

    /// Gives every shortcut back. Asked for twice: it throws away every key you have ever
    /// changed, and nothing brings them back. Answers whether it is to be done.
    pub fn give_all_back(&mut self) -> (r: bool)
        ensures
            r == old(self).armed,
            final(self).deep_view() == if r {
                ScreenView { armed: false, ..old(self).deep_view() }
            } else {
                ScreenView {
                    armed: true,
                    said: Some(
                        "This gives every shortcut back to sid. Ctrl+Alt+R again to do it."@,
                    ),
                    ..old(self).deep_view()
                }
            },
    {
        let ghost was = self.deep_view();
        if !self.armed {
            self.armed = true;
            self.said = Some(
                "This gives every shortcut back to sid. Ctrl+Alt+R again to do it.".to_string(),
            );
            proof {
                assert(self.deep_view() =~= (ScreenView {
                    armed: true,
                    said: Some(
                        "This gives every shortcut back to sid. Ctrl+Alt+R again to do it."@,
                    ),
                    ..was
                }));
            }
            return false;
        }
        self.armed = false;
        proof {
            assert(self.deep_view() =~= (ScreenView { armed: false, ..was }));
        }
        true
    }

    /// Every shortcut was given back in `config.toml`, or was not.
    pub fn gave_all_back(&mut self, written: Result<(), String>)
        ensures
            final(self).deep_view() == old(self).deep_view().all_given_back(outcome_of(written)),
    {
        let ghost was = self.deep_view();
        if let Err(flaw) = written {
            let mut words: Vec<char> = chars("Not written down: ");
            append_str(&mut words, flaw.as_str());
            self.said = Some(string(words.as_slice()));
        } else {
            self.maps = self.sids.copy();
            proof {
                assert(self.deep_view() =~= (ScreenView { maps: was.sids, ..was }));
            }
            self.gather();
            self.said = Some("Every shortcut is sid's own again".to_string());
        }
        proof {
            assert(self.deep_view() =~= was.all_given_back(outcome_of(written)));
        }
    }
}

// ---------------------------------------------------------------------------------------
// Keys and the mouse
// ---------------------------------------------------------------------------------------

/// What is left to do outside once the screen has taken an event.
#[derive(Debug, Clone, Copy, PartialEq, Eq, Structural)]
pub enum ShortcutsTask {
    Nothing,
    Close,
    /// Give the keys that were captured.
    Give,
    /// Take the shortcut in focus away.
    TakeAway,
    /// Give the keys in focus back.
    GiveBack,
    /// Give every shortcut back, once it has been asked for twice.
    GiveAllBack,
}

impl ScreenView {
    /// A key pressed while a shortcut is being given: Esc goes back, Enter takes the ones
    /// pressed, Backspace undoes the last of them, and everything else is a key. With
    /// nothing pressed yet, Enter and Backspace are shortcuts like any other.
    pub open spec fn capturing(self, key: KeyEvent) -> (ScreenView, ShortcutsTask) {
        let empty = self.capture is Some && self.capture->0.keys.len() == 0;
        match key.code {
            KeyCode::Esc => (ScreenView { capture: None, ..self }, ShortcutsTask::Nothing),
            KeyCode::Enter => if !empty {
                (
                    self,
                    if self.capture is Some && self.capture->0.clash == Some(ClashView::Text) {
                        ShortcutsTask::Nothing
                    } else {
                        ShortcutsTask::Give
                    },
                )
            } else {
                (self.pressed(key), ShortcutsTask::Nothing)
            },
            KeyCode::Backspace => if !empty {
                (self.unpressed(), ShortcutsTask::Nothing)
            } else {
                (self.pressed(key), ShortcutsTask::Nothing)
            },
            _ => (self.pressed(key), ShortcutsTask::Nothing),
        }
    }

    /// A key pressed over the list.
    pub open spec fn after_list_key(self, key: KeyEvent) -> (ScreenView, ShortcutsTask) {
        let control = KeyModifiers { control: true, ..KeyModifiers::spec_none() };
        let both = KeyModifiers { control: true, alt: true, ..KeyModifiers::spec_none() };
        let asking = key.code == KeyCode::Char('r') && key.modifiers == both;
        // Any other key answers "no" to giving every shortcut back.
        let rest = if asking {
            self
        } else {
            ScreenView { armed: false, ..self }
        };
        match key.code {
            KeyCode::Esc => (rest, ShortcutsTask::Close),
            KeyCode::F(n) => (
                rest,
                if n == 1 {
                    ShortcutsTask::Close
                } else {
                    ShortcutsTask::Nothing
                },
            ),
            KeyCode::Tab => (
                (ScreenView {
                    scope: if rest.scope == 3 {
                        0
                    } else {
                        (rest.scope + 1) as usize
                    },
                    ..rest
                }).from_top(),
                ShortcutsTask::Nothing,
            ),
            KeyCode::Enter => (rest.started(), ShortcutsTask::Nothing),
            KeyCode::Delete => (rest, ShortcutsTask::TakeAway),
            KeyCode::Up => (rest.walked(-1), ShortcutsTask::Nothing),
            KeyCode::Down => (rest.walked(1), ShortcutsTask::Nothing),
            KeyCode::PageUp => (rest.walked(-(self.page as int)), ShortcutsTask::Nothing),
            KeyCode::PageDown => (rest.walked(self.page as int), ShortcutsTask::Nothing),
            KeyCode::Home => (rest.walked(isize::MIN as int / 2), ShortcutsTask::Nothing),
            KeyCode::End => (rest.walked(isize::MAX as int / 2), ShortcutsTask::Nothing),
            KeyCode::Backspace => (
                (ScreenView {
                    query: if rest.query.len() > 0 {
                        rest.query.drop_last()
                    } else {
                        rest.query
                    },
                    ..rest
                }).from_top(),
                ShortcutsTask::Nothing,
            ),
            KeyCode::Char(c) => if asking {
                (rest, ShortcutsTask::GiveAllBack)
            } else if c == 'r' && key.modifiers == control {
                (rest, ShortcutsTask::GiveBack)
            } else if c == 'u' && key.modifiers == control {
                (
                    (ScreenView { query: Seq::empty(), ..rest }).from_top(),
                    ShortcutsTask::Nothing,
                )
            } else if key.modifiers == KeyModifiers::spec_none() || key.modifiers
                == KeyModifiers::spec_shift() {
                (
                    (ScreenView { query: rest.query.push(c), ..rest }).from_top(),
                    ShortcutsTask::Nothing,
                )
            } else {
                (rest, ShortcutsTask::Nothing)
            },
            _ => (rest, ShortcutsTask::Nothing),
        }
    }

    /// What a key does.
    pub open spec fn after_key(self, key: KeyEvent) -> (ScreenView, ShortcutsTask) {
        if self.capture is Some {
            self.capturing(key)
        } else {
            self.after_list_key(key)
        }
    }

    /// What the mouse does: the wheel scrolls, a click on a tab brings it to the front and
    /// one on a row puts the focus there. While keys are being captured it does nothing.
    pub open spec fn after_mouse(self, event: MouseEvent) -> ScreenView {
        let tab = row_under(self.tabs, 0, event.row, event.column);
        let row = row_under(self.drawn, 0, event.row, event.column);
        if self.capture is Some {
            self
        } else {
            match event.kind {
                MouseEventKind::ScrollDown => self.scrolled(3),
                MouseEventKind::ScrollUp => self.scrolled(-3),
                MouseEventKind::Down(MouseButton::Left) => if tab < self.tabs.len() {
                    (ScreenView { scope: tab as usize, ..self }).from_top()
                } else if row < self.drawn.len() {
                    ScreenView { cursor: crate::width::capped(self.scroll + row), ..self }
                } else {
                    self
                },
                _ => self,
            }
        }
    }
}

impl Shortcuts {
    fn capturing(&mut self, key: KeyEvent) -> (r: ShortcutsTask)
        ensures
            (final(self).deep_view(), r) == old(self).deep_view().capturing(key),
    {
        let ghost was = self.deep_view();
        let empty: bool = match &self.capture {
            Some(capture) => capture.keys.len() == 0,
            None => false,
        };
        match key.code {
            KeyCode::Esc => {
                self.capture = None;
                proof {
                    assert(self.deep_view() =~= (ScreenView { capture: None, ..was }));
                }
                ShortcutsTask::Nothing
            },
            KeyCode::Enter if !empty => {
                let refuses: bool = match &self.capture {
                    Some(capture) => match &capture.clash {
                        Some(clash) => clash.refuses(),
                        None => false,
                    },
                    None => false,
                };
                if refuses {
                    ShortcutsTask::Nothing
                } else {
                    ShortcutsTask::Give
                }
            },
            KeyCode::Backspace if !empty => {
                self.unpress();
                ShortcutsTask::Nothing
            },
            _ => {
                self.press(key);
                ShortcutsTask::Nothing
            },
        }
    }

    fn to_top(&mut self)
        ensures
            final(self).deep_view() == old(self).deep_view().from_top(),
    {
        let ghost was = self.deep_view();
        self.scroll = 0;
        self.cursor = 0;
        proof {
            assert(self.deep_view() =~= was.from_top());
        }
    }

    /// What a key does: while keys are being captured they are the shortcut's; else the
    /// arrows walk the list, typing filters it, and the rest changes the row in focus.
    #[verifier::rlimit(60)]
    pub fn handle_key(&mut self, key: KeyEvent) -> (r: ShortcutsTask)
        requires
            old(self).deep_view().wf(),
            old(self).page <= isize::MAX,
        ensures
            (final(self).deep_view(), r) == old(self).deep_view().after_key(key),
            final(self).deep_view().wf(),
    {
        if self.capture.is_some() {
            return self.capturing(key);
        }
        let ghost was = self.deep_view();
        let ghost control = KeyModifiers { control: true, ..KeyModifiers::spec_none() };
        let ghost both = KeyModifiers { control: true, alt: true, ..KeyModifiers::spec_none() };
        let asking: bool = key.code == KeyCode::Char('r') && key.modifiers.control
            && key.modifiers.alt && !key.modifiers.shift && !key.modifiers.meta;
        if !asking {
            self.armed = false;
        }
        let ghost rest = if asking {
            was
        } else {
            ScreenView { armed: false, ..was }
        };
        proof {
            assert(self.deep_view() =~= rest);
            assert(asking == (key.code == KeyCode::Char('r') && key.modifiers == both));
        }
        match key.code {
            KeyCode::Esc => ShortcutsTask::Close,
            KeyCode::F(n) => {
                if n == 1 {
                    ShortcutsTask::Close
                } else {
                    ShortcutsTask::Nothing
                }
            },
            KeyCode::Tab => {
                self.scope = if self.scope == 3 {
                    0
                } else {
                    self.scope + 1
                };
                proof {
                    assert(self.deep_view() =~= (ScreenView { scope: self.scope, ..rest }));
                }
                self.to_top();
                ShortcutsTask::Nothing
            },
            KeyCode::Enter => {
                self.start();
                ShortcutsTask::Nothing
            },
            KeyCode::Delete => ShortcutsTask::TakeAway,
            KeyCode::Up => {
                self.walk_cursor(-1);
                ShortcutsTask::Nothing
            },
            KeyCode::Down => {
                self.walk_cursor(1);
                ShortcutsTask::Nothing
            },
            KeyCode::PageUp => {
                let page: isize = self.page as isize;
                self.walk_cursor(-page);
                ShortcutsTask::Nothing
            },
            KeyCode::PageDown => {
                let page: isize = self.page as isize;
                self.walk_cursor(page);
                ShortcutsTask::Nothing
            },
            KeyCode::Home => {
                self.walk_cursor(isize::MIN / 2);
                ShortcutsTask::Nothing
            },
            KeyCode::End => {
                self.walk_cursor(isize::MAX / 2);
                ShortcutsTask::Nothing
            },
            KeyCode::Backspace => {
                self.query = without_last(self.query.as_str());
                proof {
                    assert(self.deep_view() =~= (ScreenView { query: self.query@, ..rest }));
                }
                self.to_top();
                ShortcutsTask::Nothing
            },
            KeyCode::Char(c) => {
                let only_control: bool = key.modifiers.control && !key.modifiers.alt
                    && !key.modifiers.shift && !key.modifiers.meta;
                proof {
                    assert(only_control == (key.modifiers == control));
                }
                if asking {
                    ShortcutsTask::GiveAllBack
                } else if c == 'r' && only_control {
                    ShortcutsTask::GiveBack
                } else if c == 'u' && only_control {
                    self.query = String::new();
                    proof {
                        assert(self.deep_view() =~= (ScreenView { query: Seq::empty(), ..rest }));
                    }
                    self.to_top();
                    ShortcutsTask::Nothing
                } else if key.modifiers.is_empty() || key.modifiers.is_shift() {
                    self.query.push(c);
                    proof {
                        assert(self.deep_view() =~= (ScreenView {
                            query: rest.query.push(c),
                            ..rest
                        }));
                    }
                    self.to_top();
                    ShortcutsTask::Nothing
                } else {
                    ShortcutsTask::Nothing
                }
            },
            _ => ShortcutsTask::Nothing,
        }
    }

    /// What the mouse does.
    pub fn handle_mouse(&mut self, event: MouseEvent)
        requires
            old(self).deep_view().wf(),
        ensures
            final(self).deep_view() == old(self).deep_view().after_mouse(event),
            final(self).deep_view().wf(),
    {
        let ghost was = self.deep_view();
        if self.capture.is_some() {
            return ;
        }
        match event.kind {
            MouseEventKind::ScrollDown => self.scroll(3),
            MouseEventKind::ScrollUp => self.scroll(-3),
            MouseEventKind::Down(MouseButton::Left) => {
                let tab: usize = find_row(&self.tabs, event.row, event.column);
                if tab < self.tabs.len() {
                    self.scope = tab;
                    proof {
                        assert(self.deep_view() =~= (ScreenView { scope: tab, ..was }));
                    }
                    self.to_top();
                    return ;
                }
                let row: usize = find_row(&self.drawn, event.row, event.column);
                if row < self.drawn.len() {
                    self.cursor = self.scroll.saturating_add(row);
                    proof {
                        assert(self.deep_view() =~= (ScreenView {
                            cursor: crate::width::capped(was.scroll + row),
                            ..was
                        }));
                    }
                }
            },
            _ => {},
        }
    }
}

// ---------------------------------------------------------------------------------------
// Drawing
// ---------------------------------------------------------------------------------------

/// Where the screen is drawn in what there is of it.
pub open spec fn popup_area(area: Rect) -> Rect {
    area.spec_centered(
        min(less(area.width as int, 4), 120) as u16,
        min(less(area.height as int, 4), 32) as u16,
    )
}

/// Whether there is room for the list inside the border.
pub open spec fn is_roomy(inner: Rect) -> bool {
    inner.width >= 12 && inner.height >= 8
}

/// Where a tab starts: behind the ones before it, three columns apart.
pub open spec fn tab_start(inner: Rect, scope: int) -> int
    decreases scope, 0int,
{
    if scope <= 0 {
        inner.x + 2
    } else {
        capped_cell(tab_end(inner, scope - 1) + 3) as int
    }
}

/// Where a tab ends: behind its name, or where the room does.
pub open spec fn tab_end(inner: Rect, scope: int) -> int
    decreases scope, 1int,
{
    let at = tab_start(inner, scope);
    at + min(scope_name(scope).len() as int, less(inner.spec_right() as int, at + 1))
}

pub open spec fn tab_area(inner: Rect, scope: int) -> Rect {
    let at = tab_start(inner, scope);
    Rect {
        x: at as u16,
        y: (inner.y + 1) as u16,
        width: (tab_end(inner, scope) - at) as u16,
        height: 1,
    }
}

/// A line of the list: the row on it, by number, where it is drawn, and whether it is in
/// focus.
#[derive(Debug, Clone, Copy, PartialEq, Eq, Structural)]
pub struct ListLine {
    pub row: usize,
    pub line: Rect,
    pub focused: bool,
}

/// Where the parts of the screen are drawn.
#[derive(Debug)]
pub struct ListLayout {
    /// The column the text starts at, and how many there are for it.
    pub x: u16,
    pub width: u16,
    /// The column the version starts at, where there is room for it behind the title.
    pub version_x: Option<u16>,
    /// The columns of the keys, of where they work and of what they do.
    pub key_width: u16,
    pub scope_width: u16,
    pub description_width: u16,
    pub lines: Vec<ListLine>,
}

/// The columns the keys have, of `width`: a third, but not too few or too many.
pub open spec fn key_columns(width: int) -> int {
    min(min(max(width / 3, 12), 36), width)
}

impl ScreenView {
    /// The screen once it has been laid out inside `inner`: its focus is on a row that is
    /// shown, and on screen.
    pub open spec fn laid_out(self, inner: Rect) -> ScreenView {
        if !is_roomy(inner) {
            ScreenView { tabs: Seq::empty(), drawn: Seq::empty(), ..self }
        } else {
            let shown = self.shown().len() as int;
            let followed = (ScreenView {
                page: less(inner.height as int, 7) as usize,
                cursor: min(self.cursor as int, less(shown, 1)) as usize,
                ..self
            }).followed(shown);
            ScreenView {
                tabs: Seq::new(4, |scope: int| tab_area(inner, scope)),
                drawn: Seq::new(
                    followed.lines_drawn() as nat,
                    |k: int| list_line(inner, k),
                ),
                ..followed
            }
        }
    }

    /// How many rows are on screen.
    pub open spec fn lines_drawn(self) -> int {
        min(less(self.shown().len() as int, self.scroll as int), self.page as int)
    }
}

/// Where the `k`th line of the list is drawn.
pub open spec fn list_line(inner: Rect, k: int) -> Rect {
    Rect { x: inner.x, y: (inner.y + 6 + k) as u16, width: inner.width, height: 1 }
}

/// The layout of a screen that has been laid out inside `inner`.
pub open spec fn is_layout_of(layout: ListLayout, screen: ScreenView, inner: Rect, version: nat)
    -> bool {
    let width = inner.width - 4;
    &&& layout.x == inner.x + 2
    &&& layout.width == width
    &&& layout.version_x == if version + 18 + 2 <= width {
        Some((inner.x + 2 + (width - version)) as u16)
    } else {
        None
    }
    &&& layout.key_width == key_columns(width)
    &&& layout.scope_width == min(10, width - key_columns(width))
    &&& layout.description_width == width - key_columns(width) - min(10, width - key_columns(width))
    &&& layout.lines@.len() == screen.lines_drawn()
    &&& forall|k: int|
        0 <= k < layout.lines@.len() ==> #[trigger] layout.lines@[k] == (ListLine {
            row: screen.shown()[screen.scroll + k],
            line: list_line(inner, k),
            focused: screen.scroll + k == screen.cursor && screen.capture is None,
        })
}

/// The tabs stand side by side inside the border, none over another.
pub proof fn tabs_stand_apart(inner: Rect, scope: int)
    requires
        is_roomy(inner),
        inner.fits(),
        0 <= scope < 3,
    ensures
        tab_start(inner, scope) <= tab_end(inner, scope),
        tab_start(inner, scope + 1) == capped_cell(tab_end(inner, scope) + 3),
        scope == 0 ==> tab_end(inner, scope) < inner.spec_right(),
{
    reveal_strlit("All");
}

fn draw_tabs(inner: Rect) -> (r: Vec<Rect>)
    requires
        is_roomy(inner),
        inner.fits(),
    ensures
        r@ == Seq::new(4, |scope: int| tab_area(inner, scope)),
{
    let names: [&'static str; 4] = scopes();
    let mut tabs: Vec<Rect> = Vec::new();
    let mut at: u16 = inner.x + 2;
    let mut scope: usize = 0;
    while scope < 4
        invariant
            scope <= 4,
            forall|k: int| 0 <= k < 4 ==> (#[trigger] names@[k])@ == scope_name(k),
            inner.fits(),
            is_roomy(inner),
            at == tab_start(inner, scope as int),
            tabs@.len() == scope,
            forall|k: int| 0 <= k < scope ==> #[trigger] tabs@[k] == tab_area(inner, k),
        decreases 4 - scope,
    {
        let room: u16 = inner.right().saturating_sub(at.saturating_add(1));
        let name: usize = letters_of(names[scope]);
        let drawn: u16 = if name < room as usize {
            name as u16
        } else {
            room
        };
        tabs.push(Rect::new(at, inner.y + 1, drawn, 1));
        at = at.saturating_add(drawn).saturating_add(3);
        scope = scope + 1;
    }
    proof {
        assert(tabs@ =~= Seq::new(4, |scope: int| tab_area(inner, scope)));
    }
    tabs
}

impl Shortcuts {
    fn draw_lines(&self, inner: Rect, shown: &Vec<usize>) -> (r: (Vec<ListLine>, Vec<Rect>))
        requires
            inner.fits(),
            is_roomy(inner),
            self.page == inner.height - 7,
        ensures
            r.0@.len() == min(less(shown@.len() as int, self.scroll as int), self.page as int),
            r.1@.len() == r.0@.len(),
            forall|k: int|
                0 <= k < r.0@.len() ==> #[trigger] r.0@[k] == (ListLine {
                    row: shown@[self.scroll + k],
                    line: list_line(inner, k),
                    focused: self.scroll + k == self.cursor && self.capture is None,
                }),
            forall|k: int| 0 <= k < r.1@.len() ==> #[trigger] r.1@[k] == list_line(inner, k),
    {
        let mut lines: Vec<ListLine> = Vec::new();
        let mut drawn: Vec<Rect> = Vec::new();
        let idle: bool = self.capture.is_none();
        let mut k: usize = 0;
        while k < self.page && k < shown.len().saturating_sub(self.scroll)
            invariant
                k <= self.page,
                k <= less(shown@.len() as int, self.scroll as int),
                self.page == inner.height - 7,
                inner.fits(),
                is_roomy(inner),
                idle == self.capture is None,
                lines@.len() == k,
                drawn@.len() == k,
                forall|j: int|
                    0 <= j < k ==> #[trigger] lines@[j] == (ListLine {
                        row: shown@[self.scroll + j],
                        line: list_line(inner, j),
                        focused: self.scroll + j == self.cursor && self.capture is None,
                    }),
                forall|j: int| 0 <= j < k ==> #[trigger] drawn@[j] == list_line(inner, j),
            decreases self.page - k,
        {
            let line: Rect = Rect::new(inner.x, inner.y + 6 + k as u16, inner.width, 1);
            let index: usize = self.scroll + k;
            let one: ListLine = ListLine {
                row: shown[index],
                line,
                focused: index == self.cursor && idle,
            };
            drawn.push(line);
            lines.push(one);
            k = k + 1;
        }
        (lines, drawn)
    }

    /// Lays the screen out: where it is drawn, what is inside its border, and where its
    /// parts are, if there is room for them. `version` is what the title's line ends with.
    pub fn lay_out(&mut self, area: Rect, version: &str) -> (r: (Rect, Rect, Option<ListLayout>))
        requires
            old(self).deep_view().wf(),
            area.fits(),
        ensures
            r.0 == popup_area(area),
            r.1 == popup_area(area).spec_inside_border(),
            final(self).deep_view() == old(self).deep_view().laid_out(r.1),
            final(self).deep_view().wf(),
            match r.2 {
                Some(layout) => is_roomy(r.1) && is_layout_of(
                    layout,
                    final(self).deep_view(),
                    r.1,
                    version@.len(),
                ),
                None => !is_roomy(r.1),
            },
    {
        let ghost was = self.deep_view();
        let width: u16 = area.width.saturating_sub(4);
        let width: u16 = if width < 120 {
            width
        } else {
            120
        };
        let height: u16 = area.height.saturating_sub(4);
        let height: u16 = if height < 32 {
            height
        } else {
            32
        };
        let popup: Rect = area.centered(width, height);
        let inner: Rect = popup.inside_border();
        self.tabs = Vec::new();
        self.drawn = Vec::new();
        if inner.width < 12 || inner.height < 8 {
            proof {
                assert(self.deep_view() =~= was.laid_out(inner));
            }
            return (popup, inner, None);
        }
        let x: u16 = inner.x + 2;
        let width: u16 = inner.width - 4;
        let letters: Vec<char> = chars(version);
        let version_x: Option<u16> = if letters.len() <= width as usize && letters.len() + 18 + 2
            <= width as usize {
            Some(x + (width - letters.len() as u16))
        } else {
            None
        };
        let tabs: Vec<Rect> = draw_tabs(inner);
        let shown: Vec<usize> = self.shown();
        self.page = (inner.height - 7) as usize;
        if self.cursor > shown.len().saturating_sub(1) {
            self.cursor = shown.len().saturating_sub(1);
        }
        self.follow(shown.len());
        let key_width: u16 = if width / 3 < 12 {
            12
        } else if width / 3 > 36 {
            36
        } else {
            width / 3
        };
        let key_width: u16 = if key_width < width {
            key_width
        } else {
            width
        };
        let scope_width: u16 = if 10 < width - key_width {
            10
        } else {
            width - key_width
        };
        let ghost followed = self.deep_view();
        let (lines, drawn) = self.draw_lines(inner, &shown);
        self.tabs = tabs;
        self.drawn = drawn;
        proof {
            assert(self.deep_view().shown() == shown@);
            assert(self.drawn@ =~= Seq::new(
                followed.lines_drawn() as nat,
                |k: int| list_line(inner, k),
            ));
            assert(self.deep_view() =~= was.laid_out(inner));
        }
        (
            popup,
            inner,
            Some(
                ListLayout {
                    x,
                    width,
                    version_x,
                    key_width,
                    scope_width,
                    description_width: width - key_width - scope_width,
                    lines,
                },
            ),
        )
    }

    /// The line at the bottom of the screen.
    pub fn footer(&self) -> (r: String)
        requires
            self.deep_view().wf(),
        ensures
            r@ == decimal(self.deep_view().shown().len()) + " of "@ + decimal(self.rows@.len())
                + " · Type to filter · Tab: the list · ↑↓: move · Esc: close · Modal editing: Ctrl+Shift+P"@,
    {
        let mut words: Vec<char> = Vec::new();
        let shown: usize = self.shown().len();
        write_number(&mut words, shown as u64);
        append_str(&mut words, " of ");
        write_number(&mut words, self.rows.len() as u64);
        append_str(
            &mut words,
            " · Type to filter · Tab: the list · ↑↓: move · Esc: close · Modal editing: Ctrl+Shift+P",
        );
        proof {
            assert(words@ =~= decimal(self.deep_view().shown().len()) + " of "@ + decimal(
                self.rows@.len(),
            )
                + " · Type to filter · Tab: the list · ↑↓: move · Esc: close · Modal editing: Ctrl+Shift+P"@);
        }
        string(words.as_slice())
    }
}

impl Row {
    /// The keys as they are drawn: a dash where no key reaches the action.
    pub fn shown_keys(&self) -> (r: &str)
        ensures
            r@ == if self.label@.len() == 0 {
                "—"@
            } else {
                self.label@
            },
    {
        if letters_of(self.label.as_str()) == 0 {
            "—"
        } else {
            self.label.as_str()
        }
    }
}

impl Shortcuts {
    /// The line under the tabs, and whether it stands out: what the last change did, or what
    /// there is to do.
    pub fn status_line(&self) -> (r: (&str, bool))
        ensures
            match self.said {
                Some(said) => r.0@ == said@ && r.1,
                None => r.0@
                    == "Enter to change it · Del to take it away · Ctrl+R to restore it · Ctrl+Alt+R to restore them all"@
                    && !r.1,
            },
    {
        match &self.said {
            Some(said) => (said.as_str(), true),
            None => (
                "Enter to change it · Del to take it away · Ctrl+R to restore it · Ctrl+Alt+R to restore them all",
                false,
            ),
        }
    }
}

/// The box that asks for the keys and says what they would cost.
#[derive(Debug)]
pub struct CaptureBox {
    pub title: String,
    pub pressed: String,
    pub clash: Option<String>,
    pub hint: String,
    pub area: Rect,
    pub inner: Rect,
    /// Where its lines are, where there is room for them.
    pub lines: Option<CaptureLines>,
}

/// Where the lines of the box are: the title, a blank row, what was pressed, a blank row, what
/// it would cost if it does, and the hint.
#[derive(Debug, Clone, Copy, PartialEq, Eq, Structural)]
pub struct CaptureLines {
    pub x: u16,
    pub room: u16,
    pub title: u16,
    pub pressed: u16,
    pub clash: Option<u16>,
    pub hint: u16,
}

pub open spec fn capture_lines(inner: Rect, clash: bool) -> Option<CaptureLines> {
    if inner.width < 4 {
        None
    } else {
        let below = capped_cell(inner.y + 4);
        Some(
            CaptureLines {
                x: capped_cell(inner.x + 1),
                room: (inner.width - 2) as u16,
                title: inner.y,
                pressed: capped_cell(inner.y + 2),
                clash: if clash {
                    Some(below)
                } else {
                    None
                },
                hint: if clash {
                    capped_cell(below + 1)
                } else {
                    below
                },
            },
        )
    }
}

fn place_lines(inner: Rect, clash: bool) -> (r: Option<CaptureLines>)
    ensures
        r == capture_lines(inner, clash),
{
    if inner.width < 4 {
        return None;
    }
    let below: u16 = inner.y.saturating_add(4);
    Some(
        CaptureLines {
            x: inner.x.saturating_add(1),
            room: inner.width - 2,
            title: inner.y,
            pressed: inner.y.saturating_add(2),
            clash: if clash {
                Some(below)
            } else {
                None
            },
            hint: if clash {
                below.saturating_add(1)
            } else {
                below
            },
        },
    )
}

pub open spec fn capture_title(capture: CaptureView) -> Seq<char> {
    "Shortcut for «"@ + capture.description + "» · "@ + capture.place.spec_label()
}

/// What was pressed so far. What the action answers to now is said too, so what the new
/// keys take the place of is in sight.
pub open spec fn capture_pressed(capture: CaptureView) -> Seq<char> {
    let keys = path_label(capture.keys);
    if keys.len() == 0 && capture.was.len() == 0 {
        "Press the keys…"@
    } else if keys.len() == 0 {
        "Press the keys…    now "@ + path_label(capture.was)
    } else if capture.was.len() == 0 {
        keys
    } else {
        keys + "    instead of "@ + path_label(capture.was)
    }
}

pub open spec fn capture_clash(capture: CaptureView) -> Option<Seq<char>> {
    match capture.clash {
        Some(clash) => Some(clash.says(path_label(capture.keys))),
        None => None,
    }
}

pub open spec fn capture_hint(capture: CaptureView) -> Seq<char> {
    if capture.keys.len() == 0 {
        "Esc goes back"@
    } else {
        match capture.clash {
            Some(ClashView::Text) => "Press others · Esc goes back"@,
            Some(ClashView::Taken { .. }) => "Enter takes it · Esc goes back"@,
            Some(_) => "Enter gives it anyway · Esc goes back"@,
            None => "Enter gives it · Backspace undoes a key · Esc goes back"@,
        }
    }
}

/// The most characters that a line of the box has.
pub open spec fn capture_longest(capture: CaptureView) -> int {
    let lines = max(
        max(capture_title(capture).len() as int, capture_pressed(capture).len() as int),
        capture_hint(capture).len() as int,
    );
    match capture_clash(capture) {
        Some(clash) => max(lines, clash.len() as int),
        None => lines,
    }
}

/// Where the box is drawn over the screen.
pub open spec fn capture_area(capture: CaptureView, popup: Rect) -> Rect {
    popup.spec_centered(
        capped_cell(capture_longest(capture) + 6),
        if capture.clash is Some {
            8
        } else {
            7
        },
    )
}

fn letters_of(text: &str) -> (r: usize)
    ensures
        r == text@.len(),
{
    let letters: Vec<char> = chars(text);
    letters.len()
}

impl Shortcuts {
    /// The box that asks for the keys, while it does.
    pub fn capture_box(&self, popup: Rect) -> (r: Option<CaptureBox>)
        requires
            popup.fits(),
        ensures
            match (r, self.deep_view().capture) {
                (Some(drawn), Some(capture)) => {
                    &&& drawn.title@ == capture_title(capture)
                    &&& drawn.pressed@ == capture_pressed(capture)
                    &&& drawn.clash.deep_view() == capture_clash(capture)
                    &&& drawn.hint@ == capture_hint(capture)
                    &&& drawn.area == capture_area(capture, popup)
                    &&& drawn.inner == capture_area(capture, popup).spec_inside_border()
                    &&& drawn.lines == capture_lines(drawn.inner, capture.clash is Some)
                },
                (None, None) => true,
                _ => false,
            },
    {
        let capture: &Capture = match &self.capture {
            Some(capture) => capture,
            None => {
                return None;
            },
        };
        let ghost asked = capture.deep_view();
        let keys: String = key_path(capture.keys.as_slice());
        let was: String = key_path(capture.was.as_slice());
        let mut title: Vec<char> = chars("Shortcut for «");
        append_str(&mut title, capture.description.as_str());
        append_str(&mut title, "» · ");
        append_str(&mut title, capture.place.label());
        let title: String = string(title.as_slice());
        let none: bool = letters_of(keys.as_str()) == 0;
        let pressed: String = if none && capture.was.len() == 0 {
            "Press the keys…".to_string()
        } else if none {
            say("Press the keys…    now ", was.as_str(), "")
        } else if capture.was.len() == 0 {
            keys.clone()
        } else {
            say(keys.as_str(), "    instead of ", was.as_str())
        };
        proof {
            reveal_strlit("");
            assert("Press the keys…    now "@ + path_label(asked.was) + ""@
                =~= "Press the keys…    now "@ + path_label(asked.was));
        }
        let clash: Option<String> = match &capture.clash {
            Some(clash) => Some(clash.says(keys.as_str())),
            None => None,
        };
        let hint: String = if capture.keys.len() == 0 {
            "Esc goes back".to_string()
        } else {
            match &capture.clash {
                Some(Clash::Text) => "Press others · Esc goes back".to_string(),
                Some(Clash::Taken { .. }) => "Enter takes it · Esc goes back".to_string(),
                Some(_) => "Enter gives it anyway · Esc goes back".to_string(),
                None => "Enter gives it · Backspace undoes a key · Esc goes back".to_string(),
            }
        };
        let mut longest: usize = letters_of(title.as_str());
        if letters_of(pressed.as_str()) > longest {
            longest = letters_of(pressed.as_str());
        }
        if letters_of(hint.as_str()) > longest {
            longest = letters_of(hint.as_str());
        }
        if let Some(words) = &clash {
            if letters_of(words.as_str()) > longest {
                longest = letters_of(words.as_str());
            }
        }
        let width: u16 = if longest > 65529 {
            65535
        } else {
            longest as u16 + 6
        };
        let height: u16 = if clash.is_some() {
            8
        } else {
            7
        };
        let area: Rect = popup.centered(width, height);
        let inner: Rect = area.inside_border();
        let lines: Option<CaptureLines> = place_lines(inner, clash.is_some());
        Some(CaptureBox { title, pressed, clash, hint, area, inner, lines })
    }
}

} // verus!
