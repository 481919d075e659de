//! The menus the right button opens, and closing a tab.

use crate::text::{append_str, chars, string};
use vstd::prelude::*;

verus! {

/// What a line of a menu does.
#[derive(Debug, Clone, Copy, PartialEq, Eq, Structural)]
pub enum MenuCommand {
    SplitTabVertically,
    SplitTabHorizontally,
    BufferClose,
    BufferCloseOthers,
    BufferCloseAll,
    ReviewCommitsToggle,
    ReviewCodeToggle,
    ReviewFilesToggle,
    ReviewContextToggle,
    ReviewSideBySideToggle,
    KeyboardShortcuts,
    CutToClipboard,
    CopyToClipboard,
    PasteFromClipboard,
    GotoDefinition,
    RenameSymbol,
    VSplit,
    HSplit,
    WClose,
}

/// A line of a menu, with the keys that do the same.
#[derive(Debug, Clone, Copy)]
pub struct Entry {
    pub label: &'static str,
    pub keys: &'static str,
    pub command: MenuCommand,
}

#[verifier::ext_equal]
pub struct EntryView {
    pub label: Seq<char>,
    pub keys: Seq<char>,
    pub command: MenuCommand,
}

impl DeepView for Entry {
    type V = EntryView;

    open spec fn deep_view(&self) -> EntryView {
        EntryView { label: self.label@, keys: self.keys@, command: self.command }
    }
}

impl Entry {
    pub fn new(label: &'static str, keys: &'static str, command: MenuCommand) -> (r: Entry)
        ensures
            r.deep_view() == entry(label@, keys@, command),
    {
        Entry { label, keys, command }
    }
}

pub open spec fn entry(label: Seq<char>, keys: Seq<char>, command: MenuCommand) -> EntryView {
    EntryView { label, keys, command }
}

/// The panels of a review.
#[derive(Debug, Clone, Copy, PartialEq, Eq, Structural)]
pub struct Panels {
    /// The panel of commits is shown.
    pub commits: bool,
    /// The panel of code is not.
    pub code_hidden: bool,
    /// The panel of a commit's files is shown.
    pub files: bool,
    /// The whole file is shown rather than its changed sections.
    pub full_context: bool,
    pub side_by_side: bool,
    /// The document in view is one of a review.
    pub review: bool,
}

/// The controls of the panels.
pub open spec fn panel_entries(panels: Panels) -> Seq<EntryView> {
    let commits = entry(
        if panels.commits {
            "Hide commits panel"@
        } else {
            "Show commits panel"@
        },
        "F6"@,
        MenuCommand::ReviewCommitsToggle,
    );
    let code = entry(
        if panels.code_hidden {
            "Show code panel"@
        } else {
            "Hide code panel"@
        },
        "F7"@,
        MenuCommand::ReviewCodeToggle,
    );
    let files = entry(
        if panels.files {
            "Hide commit files panel"@
        } else {
            "Show commit files panel"@
        },
        "F9"@,
        MenuCommand::ReviewFilesToggle,
    );
    let context = entry(
        if panels.full_context {
            "Show changed sections only"@
        } else {
            "Show full file context"@
        },
        "F4"@,
        MenuCommand::ReviewContextToggle,
    );
    let beside = entry(
        if panels.side_by_side {
            "Show one side above the other"@
        } else {
            "Show side by side"@
        },
        "Ctrl-Alt-d"@,
        MenuCommand::ReviewSideBySideToggle,
    );
    let shortcuts = entry("Keyboard shortcuts"@, "F1"@, MenuCommand::KeyboardShortcuts);
    if panels.review {
        seq![commits, code, files, context, beside, shortcuts]
    } else {
        seq![commits, code, files, shortcuts]
    }
}

/// The same panel controls are reachable from either side, including when one is hidden.
pub fn review_menu_entries(panels: Panels) -> (r: Vec<Entry>)
    ensures
        r.deep_view() == panel_entries(panels),
{
    let mut entries: Vec<Entry> = Vec::new();
    entries.push(
        Entry::new(
            if panels.commits {
                "Hide commits panel"
            } else {
                "Show commits panel"
            },
            "F6",
            MenuCommand::ReviewCommitsToggle,
        ),
    );
    entries.push(
        Entry::new(
            if panels.code_hidden {
                "Show code panel"
            } else {
                "Hide code panel"
            },
            "F7",
            MenuCommand::ReviewCodeToggle,
        ),
    );
    entries.push(
        Entry::new(
            if panels.files {
                "Hide commit files panel"
            } else {
                "Show commit files panel"
            },
            "F9",
            MenuCommand::ReviewFilesToggle,
        ),
    );
    if panels.review {
        entries.push(
            Entry::new(
                if panels.full_context {
                    "Show changed sections only"
                } else {
                    "Show full file context"
                },
                "F4",
                MenuCommand::ReviewContextToggle,
            ),
        );
        entries.push(
            Entry::new(
                if panels.side_by_side {
                    "Show one side above the other"
                } else {
                    "Show side by side"
                },
                "Ctrl-Alt-d",
                MenuCommand::ReviewSideBySideToggle,
            ),
        );
    }
    entries.push(Entry::new("Keyboard shortcuts", "F1", MenuCommand::KeyboardShortcuts));
    proof {
        assert(entries.deep_view() =~= panel_entries(panels));
    }
    entries
}

/// The menu of the panels alone.
pub fn open_review_menu(panels: Panels) -> (r: Vec<Entry>)
    ensures
        r.deep_view() == panel_entries(panels),
{
    review_menu_entries(panels)
}

fn join_entries(entries: &mut Vec<Entry>, more: &Vec<Entry>)
    ensures
        final(entries).deep_view() == old(entries).deep_view() + more.deep_view(),
{
    let ghost before = entries.deep_view();
    let ghost all = more.deep_view();
    let mut n: usize = 0;
    proof {
        assert(before + all.take(0) =~= before);
    }
    while n < more.len()
        invariant
            n <= more@.len(),
            all == more.deep_view(),
            entries.deep_view() == before + all.take(n as int),
        decreases more@.len() - n,
    {
        let ghost so_far = entries.deep_view();
        entries.push(more[n]);
        n = n + 1;
        proof {
            assert(all[n - 1] == more@[n - 1].deep_view());
            assert(entries.deep_view() =~= so_far.push(all[n - 1]));
            assert(entries.deep_view() =~= before + all.take(n as int));
        }
    }
    proof {
        assert(all.take(n as int) =~= all);
    }
}

/// What can be done to a tab.
pub open spec fn tab_entries(panels: Panels) -> Seq<EntryView> {
    seq![
        entry("Split vertically"@, ""@, MenuCommand::SplitTabVertically),
        entry("Split horizontally"@, ""@, MenuCommand::SplitTabHorizontally),
        entry("Close"@, "Ctrl+w"@, MenuCommand::BufferClose),
        entry("Close other tabs"@, ""@, MenuCommand::BufferCloseOthers),
        entry("Close all tabs"@, "Shift+F4"@, MenuCommand::BufferCloseAll),
    ] + panel_entries(panels)
}

/// What can be done to the tab that was pointed at, which is the current one by then, so
/// "others" are all but it.
pub fn open_tab_menu(panels: Panels) -> (r: Vec<Entry>)
    ensures
        r.deep_view() == tab_entries(panels),
{
    let mut entries: Vec<Entry> = Vec::new();
    entries.push(Entry::new("Split vertically", "", MenuCommand::SplitTabVertically));
    entries.push(Entry::new("Split horizontally", "", MenuCommand::SplitTabHorizontally));
    entries.push(Entry::new("Close", "Ctrl+w", MenuCommand::BufferClose));
    entries.push(Entry::new("Close other tabs", "", MenuCommand::BufferCloseOthers));
    entries.push(Entry::new("Close all tabs", "Shift+F4", MenuCommand::BufferCloseAll));
    let ghost own = entries.deep_view();
    let more: Vec<Entry> = review_menu_entries(panels);
    join_entries(&mut entries, &more);
    proof {
        assert(entries.deep_view() =~= tab_entries(panels));
    }
    entries
}

/// What can be done to the text under the pointer. The text of a review is not edited.
pub open spec fn text_entries(panels: Panels, views: usize) -> Seq<EntryView> {
    let copy = entry("Copy"@, "Ctrl-c"@, MenuCommand::CopyToClipboard);
    let beside = entry("Split vertically"@, ""@, MenuCommand::VSplit);
    let below = entry("Split horizontally"@, ""@, MenuCommand::HSplit);
    (if panels.review {
        seq![copy, beside, below]
    } else {
        seq![
            entry("Cut"@, "Ctrl-x"@, MenuCommand::CutToClipboard),
            copy,
            entry("Paste"@, "Ctrl-v"@, MenuCommand::PasteFromClipboard),
            entry("Go to the definition"@, "F12"@, MenuCommand::GotoDefinition),
            entry("Rename the symbol"@, "F2"@, MenuCommand::RenameSymbol),
            beside,
            below,
        ]
    }) + panel_entries(panels) + (if views > 1 {
        seq![entry("Close split"@, ""@, MenuCommand::WClose)]
    } else {
        Seq::empty()
    })
}

/// What can be done to the text under the pointer, with so many views on screen. Closing the
/// last view exits the editor; this menu only closes a split.
pub fn open_editor_menu(panels: Panels, views: usize) -> (r: Vec<Entry>)
    ensures
        r.deep_view() == text_entries(panels, views),
{
    let mut entries: Vec<Entry> = Vec::new();
    if panels.review {
        entries.push(Entry::new("Copy", "Ctrl-c", MenuCommand::CopyToClipboard));
    } else {
        entries.push(Entry::new("Cut", "Ctrl-x", MenuCommand::CutToClipboard));
        entries.push(Entry::new("Copy", "Ctrl-c", MenuCommand::CopyToClipboard));
        entries.push(Entry::new("Paste", "Ctrl-v", MenuCommand::PasteFromClipboard));
        entries.push(Entry::new("Go to the definition", "F12", MenuCommand::GotoDefinition));
        entries.push(Entry::new("Rename the symbol", "F2", MenuCommand::RenameSymbol));
    }
    entries.push(Entry::new("Split vertically", "", MenuCommand::VSplit));
    entries.push(Entry::new("Split horizontally", "", MenuCommand::HSplit));
    let ghost own = entries.deep_view();
    let more: Vec<Entry> = review_menu_entries(panels);
    join_entries(&mut entries, &more);
    let ghost both = entries.deep_view();
    if views > 1 {
        let last: Entry = Entry::new("Close split", "", MenuCommand::WClose);
        entries.push(last);
        proof {
            assert(entries.deep_view() =~= both + seq![last.deep_view()]);
        }
    } else {
        proof {
            assert(both =~= both + Seq::<EntryView>::empty());
        }
    }
    proof {
        assert(own =~= text_entries(panels, views).take(own.len() as int));
    }
    entries
}

// ---------------------------------------------------------------------------------------
// Closing a tab
// ---------------------------------------------------------------------------------------

/// What closing a tab takes first.
#[derive(Debug)]
pub enum CloseStep {
    /// A tab with a file behind it is written rather than refused.
    Save,
    /// One without a file is a question, since closing it is the only way its changes can be
    /// lost.
    Ask(String),
    Close,
}

/// What closing a tab takes first.
pub open spec fn taken_first(
    known: bool,
    modified: bool,
    has_path: bool,
    name: Seq<char>,
    step: CloseStep,
) -> bool {
    if known && modified && has_path {
        step == CloseStep::Save
    } else if known && modified {
        step is Ask && step->Ask_0@ == name + " has changes and no file to write them to."@
    } else {
        step == CloseStep::Close
    }
}

/// What closing a tab takes: whether there is such a document, whether it has changes, and
/// whether there is a file for them.
pub fn close_bufferline_tab(known: bool, modified: bool, has_path: bool, name: &str) -> (r:
    CloseStep)
    ensures
        taken_first(known, modified, has_path, name@, r),
{
    if !known || !modified {
        return CloseStep::Close;
    }
    if has_path {
        return CloseStep::Save;
    }
    let mut text: Vec<char> = chars(name);
    append_str(&mut text, " has changes and no file to write them to.");
    CloseStep::Ask(string(text.as_slice()))
}

/// Why a tab did not close.
#[derive(Debug)]
pub enum CloseFailure {
    /// It could not be written.
    Save(String),
    /// What was being written could not be finished.
    Flush(String),
    /// It has changes, by its name.
    Modified(String),
    /// There is no such document any more.
    Missing,
    Other(String),
}

/// What is said of a tab that did not close.
pub open spec fn close_words(failure: CloseFailure) -> Seq<char> {
    match failure {
        CloseFailure::Save(err) => "Could not save: "@ + err@,
        CloseFailure::Flush(err) => "Could not close the buffer: "@ + err@,
        CloseFailure::Modified(name) => name@
            + " has unsaved changes: write it, or :buffer-close! to drop them"@,
        CloseFailure::Missing => "That buffer no longer exists"@,
        CloseFailure::Other(err) => "Could not close the buffer: "@ + err@,
    }
}

impl CloseFailure {
    pub fn says(&self) -> (r: String)
        ensures
            r@ == close_words(*self),
    {
        let mut text: Vec<char> = Vec::new();
        match self {
            CloseFailure::Save(err) => {
                append_str(&mut text, "Could not save: ");
                append_str(&mut text, err.as_str());
            },
            CloseFailure::Flush(err) => {
                append_str(&mut text, "Could not close the buffer: ");
                append_str(&mut text, err.as_str());
            },
            CloseFailure::Modified(name) => {
                append_str(&mut text, name.as_str());
                append_str(
                    &mut text,
                    " has unsaved changes: write it, or :buffer-close! to drop them",
                );
            },
            CloseFailure::Missing => {
                append_str(&mut text, "That buffer no longer exists");
            },
            CloseFailure::Other(err) => {
                append_str(&mut text, "Could not close the buffer: ");
                append_str(&mut text, err.as_str());
            },
        }
        proof {
            assert(text@ =~= close_words(*self));
        }
        string(text.as_slice())
    }
}

/// A tab with changes is never closed without them being written or asked about, and one
/// without changes is closed as it is. Nothing is written where there is no file.
pub proof fn closing_loses_nothing(
    known: bool,
    modified: bool,
    has_path: bool,
    name: Seq<char>,
    step: CloseStep,
)
    requires
        taken_first(known, modified, has_path, name, step),
    ensures
        step is Close <==> !known || !modified,
        step is Save ==> has_path,
        step is Ask ==> !has_path && step->Ask_0@.len() >= name.len() && step->Ask_0@.take(
            name.len() as int,
        ) == name,
{
    if step is Ask {
        assert(step->Ask_0@.take(name.len() as int) =~= name);
    }
}

/// Whether a menu has a line that does something.
pub open spec fn offers(entries: Seq<EntryView>, command: MenuCommand) -> bool {
    exists|i: int| 0 <= i < entries.len() && (#[trigger] entries[i]).command == command
}

/// The line of a panel offers to hide it where it is shown and to show it where it is not.
pub proof fn a_panel_is_offered_the_other_way(panels: Panels, i: int)
    requires
        0 <= i < panel_entries(panels).len(),
    ensures
        ({
            let line = panel_entries(panels)[i];
            let hides = line.label.len() > 0 && line.label[0] == 'H';
            &&& line.command == MenuCommand::ReviewCommitsToggle ==> hides == panels.commits
            &&& line.command == MenuCommand::ReviewCodeToggle ==> hides == !panels.code_hidden
            &&& line.command == MenuCommand::ReviewFilesToggle ==> hides == panels.files
        }),
        offers(panel_entries(panels), MenuCommand::ReviewCommitsToggle),
        offers(panel_entries(panels), MenuCommand::ReviewCodeToggle),
        offers(panel_entries(panels), MenuCommand::ReviewFilesToggle),
        offers(panel_entries(panels), MenuCommand::ReviewContextToggle) == panels.review,
        offers(panel_entries(panels), MenuCommand::ReviewSideBySideToggle) == panels.review,
{
    reveal_strlit("Hide commits panel");
    reveal_strlit("Show commits panel");
    reveal_strlit("Hide code panel");
    reveal_strlit("Show code panel");
    reveal_strlit("Hide commit files panel");
    reveal_strlit("Show commit files panel");
    let all = panel_entries(panels);
    assert(all[0].command == MenuCommand::ReviewCommitsToggle);
    assert(all[1].command == MenuCommand::ReviewCodeToggle);
    assert(all[2].command == MenuCommand::ReviewFilesToggle);
    if panels.review {
        assert(all[3].command == MenuCommand::ReviewContextToggle);
        assert(all[4].command == MenuCommand::ReviewSideBySideToggle);
    }
}

/// Nothing that edits is offered on the text of a review, and everything is on other text; a
/// split is closed only where there is more than one.
pub proof fn a_review_is_not_edited(panels: Panels, views: usize)
    ensures
        offers(text_entries(panels, views), MenuCommand::CutToClipboard) == !panels.review,
        offers(text_entries(panels, views), MenuCommand::PasteFromClipboard) == !panels.review,
        offers(text_entries(panels, views), MenuCommand::RenameSymbol) == !panels.review,
        offers(text_entries(panels, views), MenuCommand::CopyToClipboard),
        offers(text_entries(panels, views), MenuCommand::VSplit),
        offers(text_entries(panels, views), MenuCommand::HSplit),
        offers(text_entries(panels, views), MenuCommand::WClose) == (views > 1),
{
    let all = text_entries(panels, views);
    if panels.review {
        assert(all[0].command == MenuCommand::CopyToClipboard);
        assert(all[1].command == MenuCommand::VSplit);
        assert(all[2].command == MenuCommand::HSplit);
    } else {
        assert(all[0].command == MenuCommand::CutToClipboard);
        assert(all[1].command == MenuCommand::CopyToClipboard);
        assert(all[2].command == MenuCommand::PasteFromClipboard);
        assert(all[4].command == MenuCommand::RenameSymbol);
        assert(all[5].command == MenuCommand::VSplit);
        assert(all[6].command == MenuCommand::HSplit);
    }
    if views > 1 {
        assert(all.last().command == MenuCommand::WClose);
    }
}

} // verus!
