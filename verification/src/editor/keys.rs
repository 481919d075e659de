//! What the keys ask of the editor.

use crate::input::{key_name, key_words, KeyCode, KeyEvent, KeyModifiers};
use crate::keymap::Mode;
use crate::text::{append_str, chars, string};
use vstd::prelude::*;

verus! {

// ---------------------------------------------------------------------------------------
// Keys as they are reported
// ---------------------------------------------------------------------------------------

/// Whether Unicode calls the character a small letter.
pub uninterp spec fn is_small(c: char) -> bool;

/// `char::is_lowercase`: whether Unicode calls the character a small letter.
#[verifier::external_body]
fn is_lowercase(c: char) -> (r: bool)
    ensures
        r == is_small(c),
{
    c.is_lowercase()
}

/// A character as a capital, as Unicode has it.
pub uninterp spec fn capital_of(c: char) -> Seq<char>;

/// `char::to_uppercase`: the character as a capital, which may take more than one character.
#[verifier::external_body]
fn to_uppercase(c: char) -> (r: Vec<char>)
    ensures
        r@ == capital_of(c),
{
    c.to_uppercase().collect()
}

/// A key as it is looked up: the Shift of a character is in the character.
pub open spec fn canonical(key: KeyEvent) -> KeyEvent {
    match key.code {
        KeyCode::Char(c) => KeyEvent {
            code: if key.modifiers.shift && is_small(c) && capital_of(c).len() == 1 {
                KeyCode::Char(capital_of(c)[0])
            } else {
                key.code
            },
            modifiers: KeyModifiers { shift: false, ..key.modifiers },
        },
        _ => key,
    }
}

/// Makes a key the one it is looked up by. A terminal may report Shift and `e` rather than
/// `E`.
pub fn canonicalize_key(key: &mut KeyEvent)
    ensures
        *final(key) == canonical(*old(key)),
{
    if let KeyCode::Char(c) = key.code {
        if key.modifiers.shift && is_lowercase(c) {
            let upper: Vec<char> = to_uppercase(c);
            if upper.len() == 1 {
                key.code = KeyCode::Char(upper[0]);
            }
        }
        key.modifiers.shift = false;
    }
}

/// A key without the Shift of a character stays as it is.
pub proof fn a_canonical_key_stays(key: KeyEvent)
    ensures
        canonical(canonical(key)) == canonical(key),
        key.code is Char && !key.modifiers.shift ==> canonical(key) == key,
        !(key.code is Char) ==> canonical(key) == key,
{
}

// ---------------------------------------------------------------------------------------
// Counts
// ---------------------------------------------------------------------------------------

/// The largest count there is.
pub const MAX_COUNT: u64 = 100000000;

/// What a key means in a mode of commands.
#[derive(Debug, Clone, Copy, PartialEq, Eq, Structural)]
pub enum CountStep {
    /// The count is another.
    Count(u64),
    /// The count would be too large, and stays as it is.
    TooLarge,
    /// What was last inserted is done again, so often.
    Repeat(u64),
    /// The key is looked up.
    Command,
}

/// The digit a key without modifiers is.
pub open spec fn digit_of(key: KeyEvent) -> Option<int> {
    match key.code {
        KeyCode::Char(c) => if key.modifiers == KeyModifiers::spec_none() && '0' <= c <= '9' {
            Some(c as int - '0' as int)
        } else {
            None
        },
        _ => None,
    }
}

/// What a key means: a digit goes on with a count, a non-zero one starts it where no key map
/// uses that digit, and `.` repeats where no keys are pending.
pub open spec fn counted(key: KeyEvent, count: Option<u64>, bound: bool, pending: bool) -> CountStep {
    let dot = key == KeyEvent::bare(KeyCode::Char('.'));
    match (digit_of(key), count) {
        (Some(digit), Some(count)) => if count * 10 + digit > MAX_COUNT {
            CountStep::TooLarge
        } else {
            CountStep::Count((count * 10 + digit) as u64)
        },
        (Some(digit), None) => if digit > 0 && !bound {
            CountStep::Count(digit as u64)
        } else {
            CountStep::Command
        },
        _ => if dot && !pending {
            CountStep::Repeat(
                match count {
                    Some(count) => count,
                    None => 1,
                },
            )
        } else {
            CountStep::Command
        },
    }
}

/// What a key means in a mode of commands: `count` is the one started so far, `bound` says
/// that a key map uses the key, and `pending` that keys are pending.
pub fn command_mode(key: KeyEvent, count: Option<u64>, bound: bool, pending: bool) -> (r: CountStep)
    requires
        count matches Some(count) ==> 0 < count <= MAX_COUNT,
    ensures
        r == counted(key, count, bound, pending),
{
    let plain: bool = key.modifiers.is_empty();
    if let KeyCode::Char(c) = key.code {
        if plain && '0' <= c && c <= '9' {
            let digit: u64 = (c as u64) - ('0' as u64);
            return match count {
                Some(count) => if count * 10 + digit > MAX_COUNT {
                    CountStep::TooLarge
                } else {
                    CountStep::Count(count * 10 + digit)
                },
                None => if digit > 0 && !bound {
                    CountStep::Count(digit)
                } else {
                    CountStep::Command
                },
            };
        }
        if plain && c == '.' && !pending {
            return CountStep::Repeat(
                match count {
                    Some(count) => count,
                    None => 1,
                },
            );
        }
    }
    CountStep::Command
}

/// A count is at least one and never too large, whatever is typed.
pub proof fn counts_stay_in_bounds(key: KeyEvent, count: Option<u64>, bound: bool, pending: bool)
    requires
        count matches Some(count) ==> 0 < count <= MAX_COUNT,
    ensures
        counted(key, count, bound, pending) matches CountStep::Count(next) ==> 0 < next
            <= MAX_COUNT,
        counted(key, count, bound, pending) matches CountStep::Repeat(times) ==> 0 < times
            <= MAX_COUNT,
{
}

/// The count once a command has run: none, unless keys are pending.
pub fn count_after(count: Option<u64>, pending: bool) -> (r: Option<u64>)
    ensures
        r == if pending {
            count
        } else {
            None
        },
{
    if pending {
        count
    } else {
        None
    }
}

/// The register a command is given: the one selected for it, which is selected no more.
pub fn take_register(selected: &mut Option<char>) -> (r: Option<char>)
    ensures
        r == *old(selected),
        *final(selected) is None,
{
    selected.take()
}

/// The register that is selected once a key was looked up: while keys are pending no command
/// has run, and the one it was given is put back for the command to come.
pub fn register_after(selected: Option<char>, given: Option<char>, pending: bool) -> (r: Option<char>)
    ensures
        r == if pending {
            given
        } else {
            selected
        },
{
    if pending {
        given
    } else {
        selected
    }
}

// ---------------------------------------------------------------------------------------
// Repeating what was inserted
// ---------------------------------------------------------------------------------------

/// A change a completion makes: from a place to another, and what goes there.
pub type Change = (usize, usize, Option<String>);

/// What happened while inserting, for it to be done again.
#[derive(Debug)]
pub enum InsertEvent {
    Key(KeyEvent),
    CompletionApply { trigger_offset: usize, changes: Vec<Change> },
    TriggerCompletion,
    RequestCompletion,
}

/// What inserting again does for an event.
#[derive(Debug, Clone, Copy, PartialEq, Eq, Structural)]
pub enum ReplayStep {
    Key(KeyEvent),
    /// The document goes back to a savepoint, where there is one, and the changes are made.
    Apply(Option<usize>),
    Nothing,
    /// A savepoint of the document is made.
    Save,
}

/// The savepoints of inserting again.
#[derive(Debug, Clone, Copy, PartialEq, Eq, Structural)]
pub struct Replay {
    /// The one a completion goes back to.
    pub last: Option<usize>,
    /// The one made when completions were last asked for.
    pub requested: Option<usize>,
}

impl Replay {
    /// What is done for an event. The savepoint made for it, where one is made, is `fresh`.
    pub fn step(&mut self, event: &InsertEvent, fresh: usize) -> (r: ReplayStep)
        ensures
            match *event {
                InsertEvent::Key(key) => r == ReplayStep::Key(key) && *final(self) == *old(self),
                InsertEvent::CompletionApply { trigger_offset: _, changes: _ } => r
                    == ReplayStep::Apply(old(self).last) && *final(self) == *old(self),
                InsertEvent::TriggerCompletion => r == ReplayStep::Nothing && *final(self) == (
                Replay { last: old(self).requested, requested: None }),
                InsertEvent::RequestCompletion => r == ReplayStep::Save && *final(self) == (
                Replay { requested: Some(fresh), ..*old(self) }),
            },
    {
        match event {
            InsertEvent::Key(key) => ReplayStep::Key(*key),
            InsertEvent::CompletionApply { trigger_offset: _, changes: _ } => ReplayStep::Apply(
                self.last,
            ),
            InsertEvent::TriggerCompletion => {
                self.last = self.requested;
                self.requested = None;
                ReplayStep::Nothing
            },
            InsertEvent::RequestCompletion => {
                self.requested = Some(fresh);
                ReplayStep::Save
            },
        }
    }
}

/// Where a place of a recorded change is, seen from the cursor.
pub open spec fn shifted(at: usize, cursor: usize, trigger: usize) -> usize {
    if at + cursor >= trigger {
        (at + cursor - trigger) as usize
    } else {
        0
    }
}

/// Where the recorded changes go at the cursor.
pub fn shift_changes(changes: &Vec<Change>, cursor: usize, trigger: usize) -> (r: Vec<
    (usize, usize),
>)
    requires
        forall|i: int|
            0 <= i < changes@.len() ==> (#[trigger] changes@[i]).0 + cursor <= usize::MAX
                && changes@[i].1 + cursor <= usize::MAX,
    ensures
        r@.len() == changes@.len(),
        forall|i: int|
            0 <= i < r@.len() ==> #[trigger] r@[i] == (
                shifted(changes@[i].0, cursor, trigger),
                shifted(changes@[i].1, cursor, trigger),
            ),
{
    let mut out: Vec<(usize, usize)> = Vec::new();
    let mut n: usize = 0;
    while n < changes.len()
        invariant
            n <= changes@.len(),
            out@.len() == n,
            forall|i: int|
                0 <= i < changes@.len() ==> (#[trigger] changes@[i]).0 + cursor <= usize::MAX
                    && changes@[i].1 + cursor <= usize::MAX,
            forall|i: int|
                0 <= i < n ==> #[trigger] out@[i] == (
                    shifted(changes@[i].0, cursor, trigger),
                    shifted(changes@[i].1, cursor, trigger),
                ),
        decreases changes@.len() - n,
    {
        let start: usize = (changes[n].0 + cursor).saturating_sub(trigger);
        let end: usize = (changes[n].1 + cursor).saturating_sub(trigger);
        out.push((start, end));
        n = n + 1;
    }
    out
}

/// Changes made where they were recorded go where they went.
pub proof fn repeating_in_place_changes_the_same(at: usize, trigger: usize)
    requires
        at + trigger <= usize::MAX,
    ensures
        shifted(at, trigger, trigger) == at,
{
}

// ---------------------------------------------------------------------------------------
// Looking keys up
// ---------------------------------------------------------------------------------------

/// What running a command means for the mode.
#[derive(Debug, Clone, Copy, PartialEq, Eq, Structural)]
pub struct AfterCommand {
    /// The mode is another, which is told to who listens for it.
    pub switched: bool,
    /// How insert mode was entered is important: the command is recorded, so the side effect
    /// can be repeated, and what was recorded before is forgotten.
    pub records: bool,
}

pub fn after_command(last: Mode, current: Mode) -> (r: AfterCommand)
    ensures
        r == (AfterCommand {
            switched: current != last,
            records: current != last && current == Mode::Insert,
        }),
{
    AfterCommand { switched: current != last, records: current != last && current == Mode::Insert }
}

/// What a key that no key map has does while inserting.
#[derive(Debug)]
pub enum InsertStep {
    Char(char),
    /// What is said instead. In a terminal, silence is also what a key that never arrived
    /// looks like.
    NotBound(String),
}

/// What a key that no key map has does while inserting: a character goes into the text, and
/// any other key says that it is not bound.
pub fn unbound(event: KeyEvent, typed: Option<char>) -> (r: InsertStep)
    ensures
        match typed {
            Some(c) => r == InsertStep::Char(c),
            None => r is NotBound && r->NotBound_0@ == key_words(event) + " is not bound"@,
        },
{
    match typed {
        Some(c) => InsertStep::Char(c),
        None => {
            let name: String = key_name(event);
            let mut text: Vec<char> = chars(name.as_str());
            append_str(&mut text, " is not bound");
            InsertStep::NotBound(string(text.as_slice()))
        },
    }
}

/// What a key that was pending does while inserting, once the keys behind it lead nowhere.
#[derive(Debug, Clone, Copy, PartialEq, Eq, Structural)]
pub enum CancelStep {
    Char(char),
    /// The key is looked up on its own, and what it runs is run.
    Look(KeyEvent),
}

/// What a key that was pending does, with the character it types where it types one.
pub open spec fn let_go(event: KeyEvent, typed: Option<char>) -> CancelStep {
    match typed {
        Some(c) => CancelStep::Char(c),
        None => CancelStep::Look(event),
    }
}

fn cancel_step(event: KeyEvent, typed: Option<char>) -> (r: CancelStep)
    ensures
        r == let_go(event, typed),
{
    match typed {
        Some(c) => CancelStep::Char(c),
        None => CancelStep::Look(event),
    }
}

/// What keys that lead nowhere do while inserting: each that types a character types it, and
/// any other is looked up on its own.
pub fn cancelled(pending: &Vec<(KeyEvent, Option<char>)>) -> (r: Vec<CancelStep>)
    ensures
        r@.len() == pending@.len(),
        forall|i: int|
            0 <= i < r@.len() ==> #[trigger] r@[i] == let_go(pending@[i].0, pending@[i].1),
{
    let mut steps: Vec<CancelStep> = Vec::new();
    let mut n: usize = 0;
    while n < pending.len()
        invariant
            n <= pending@.len(),
            steps@.len() == n,
            forall|i: int|
                0 <= i < n ==> #[trigger] steps@[i] == match pending@[i].1 {
                    Some(c) => CancelStep::Char(c),
                    None => CancelStep::Look(pending@[i].0),
                },
        decreases pending@.len() - n,
    {
        let (event, typed): (KeyEvent, Option<char>) = pending[n];
        steps.push(cancel_step(event, typed));
        n = n + 1;
    }
    steps
}

/// When what waits for the next key is given it.
#[derive(Debug, Clone, Copy, PartialEq, Eq, Structural)]
pub enum OnKeyCallbackKind {
    /// Before the key is looked up.
    PseudoPending,
    /// When no key map has it.
    Fallback,
}

fn waits_as(waits: Option<OnKeyCallbackKind>, kind: OnKeyCallbackKind) -> (r: bool)
    ensures
        r == (waits == Some(kind)),
{
    match waits {
        Some(own) => own == kind,
        None => false,
    }
}

/// Who may take a key.
#[derive(Debug, Clone, Copy, PartialEq, Eq, Structural)]
pub struct KeyFacts {
    pub mode: Mode,
    /// The mode the editor starts in.
    pub default_mode: Mode,
    /// Something waits for the next key.
    pub waits: Option<OnKeyCallbackKind>,
    pub full_preview: bool,
    pub sidebar_focused: bool,
    pub nothing_open: bool,
    /// The key carries a modifier, or is one of those that act on the editor.
    pub shortcut: bool,
    /// The preview was offered the key and passed it on.
    pub preview_passed: bool,
    /// The sidebar was offered the key and passed it on.
    pub sidebar_passed: bool,
}

/// Who is given a key.
#[derive(Debug, Clone, Copy, PartialEq, Eq, Structural)]
pub enum KeyRoute {
    Preview,
    Sidebar,
    /// Nobody: it is taken and nothing is done.
    Swallow,
    NextKey,
    Insert,
    Command,
}

/// Who is given a key.
pub open spec fn routed(facts: KeyFacts) -> KeyRoute {
    if facts.full_preview && facts.waits is None && !facts.preview_passed {
        KeyRoute::Preview
    } else if facts.sidebar_focused && facts.waits is None && !facts.sidebar_passed {
        KeyRoute::Sidebar
    } else if facts.mode == Mode::Insert && facts.default_mode == Mode::Insert
        && facts.waits is None && !facts.sidebar_focused && facts.nothing_open
        && !facts.shortcut {
        KeyRoute::Swallow
    } else if facts.waits == Some(OnKeyCallbackKind::PseudoPending) {
        KeyRoute::NextKey
    } else if facts.mode == Mode::Insert {
        KeyRoute::Insert
    } else {
        KeyRoute::Command
    }
}

/// Who is given a key next. The preview that fills the screen takes it first, so no command
/// edits the file nobody can see; then the sidebar, where it has the keys. With nothing open
/// a plain key would only fill the blank behind the welcome; where insert is a mode that is
/// entered, entering it is asking to type, and the typing goes through.
pub fn route(facts: KeyFacts) -> (r: KeyRoute)
    ensures
        r == routed(facts),
{
    let waits: bool = facts.waits.is_some();
    if facts.full_preview && !waits && !facts.preview_passed {
        return KeyRoute::Preview;
    }
    if facts.sidebar_focused && !waits && !facts.sidebar_passed {
        return KeyRoute::Sidebar;
    }
    if facts.mode == Mode::Insert && facts.default_mode == Mode::Insert && !waits
        && !facts.sidebar_focused && facts.nothing_open && !facts.shortcut {
        return KeyRoute::Swallow;
    }
    if waits_as(facts.waits, OnKeyCallbackKind::PseudoPending) {
        return KeyRoute::NextKey;
    }
    if facts.mode == Mode::Insert {
        KeyRoute::Insert
    } else {
        KeyRoute::Command
    }
}

/// Whether a history state is stored once an event was read. While inserting it waits until
/// insert mode is left, to take in what was edited since.
pub fn stores_history(mode: Mode) -> (r: bool)
    ensures
        r == (mode != Mode::Insert),
{
    mode != Mode::Insert
}

// ---------------------------------------------------------------------------------------
// Completion
// ---------------------------------------------------------------------------------------

/// What a menu of completions makes of an event.
#[derive(Debug, Clone, Copy, PartialEq, Eq, Structural)]
pub enum MenuAnswer {
    Ignored,
    Taken,
    /// Taken, and the menu closes.
    Closes,
}

/// What becomes of a key a menu of completions was offered.
#[derive(Debug, Clone, Copy, PartialEq, Eq, Structural)]
pub struct CompletionStep {
    /// The menu took the key, and nobody else is given it.
    pub consumed: bool,
    /// The menu closes.
    pub closes: bool,
    /// Where the completion waits for the next key, it waits from now on, for the key that is
    /// being read, rather than from the next one.
    pub waits_now: bool,
}

/// What becomes of a key while a menu of completions is open.
pub open spec fn completed(key: MenuAnswer, enter: MenuAnswer) -> CompletionStep {
    CompletionStep {
        consumed: key != MenuAnswer::Ignored,
        closes: key == MenuAnswer::Closes || (key == MenuAnswer::Ignored && enter
            == MenuAnswer::Closes),
        waits_now: key == MenuAnswer::Ignored && enter == MenuAnswer::Closes,
    }
}

/// What becomes of a key while a menu of completions is open: `key` is what the menu made of
/// it and `enter`, where it ignored it, what it made of Enter, which accepts the completion
/// before the key is typed.
pub fn completion_step(key: MenuAnswer, enter: MenuAnswer) -> (r: CompletionStep)
    ensures
        r == completed(key, enter),
{
    let consumed: bool = key != MenuAnswer::Ignored;
    let accepted: bool = !consumed && enter == MenuAnswer::Closes;
    CompletionStep {
        consumed,
        closes: key == MenuAnswer::Closes || accepted,
        waits_now: accepted,
    }
}

/// What a completion has done to the text.
#[derive(Debug)]
pub enum CompleteAction {
    Triggered,
    /// The changes are in the text, with a placeholder of a snippet to type over or without.
    Applied { trigger_offset: usize, changes: Vec<Change>, placeholder: bool },
    /// One is shown in the text, which was as it is in a savepoint.
    Selected { savepoint: usize },
}

/// What closing the menu of completions leaves to do.
#[derive(Debug, Clone, Copy, PartialEq, Eq, Structural)]
pub enum ClearStep {
    Nothing,
    /// What was applied is recorded. The next key deletes the placeholder, where there is one.
    Recorded { placeholder: bool },
    /// The document goes back to a savepoint.
    Restore(usize),
}

// ---------------------------------------------------------------------------------------
// The cursor
// ---------------------------------------------------------------------------------------

/// A cursor, as the terminal draws it or the editor does.
#[derive(Debug, Clone, Copy, PartialEq, Eq, Structural)]
pub enum CursorKind {
    Block,
    Bar,
    Underline,
    Hidden,
}

/// The digits of a number, typed one behind the other, count to that number; `.` then repeats
/// so often.
pub proof fn digits_count_to_their_number(n: u64, key: KeyEvent, pending: bool)
    requires
        0 < n <= MAX_COUNT,
        key.code == KeyCode::Char(((n % 10) + 48) as u8 as char),
        key.modifiers == KeyModifiers::spec_none(),
    ensures
        ({
            let before = if n < 10 {
                None
            } else {
                Some((n / 10) as u64)
            };
            counted(key, before, false, pending) == CountStep::Count(n)
        }),
        counted(KeyEvent::bare(KeyCode::Char('.')), Some(n), false, false) == CountStep::Repeat(n),
        counted(KeyEvent::bare(KeyCode::Char('.')), None, false, false) == CountStep::Repeat(1),
        // A count too large is not begun anew.
        n > MAX_COUNT / 10 ==> counted(key, Some(n), false, pending) == CountStep::TooLarge,
{
    let digit = n % 10;
    assert(0 <= digit < 10);
    let c = (digit + 48) as u8 as char;
    assert(c as int == digit + 48);
    assert(n == (n / 10) * 10 + digit);
}

/// A digit a key map uses is looked up, and so is anything that is no digit: a count is begun
/// by no other key, and by no key with a modifier.
pub proof fn only_digits_count(key: KeyEvent, count: Option<u64>, bound: bool, pending: bool)
    ensures
        counted(key, count, bound, pending) is Count ==> key.modifiers == KeyModifiers::spec_none()
            && (key.code matches KeyCode::Char(c) && '0' <= c <= '9'),
        bound && count is None ==> !(counted(key, count, bound, pending) is Count),
        counted(key, count, bound, pending) is Repeat ==> key.code == KeyCode::Char('.') && !pending,
        key == KeyEvent::bare(KeyCode::Char('0')) && count is None ==> counted(
            key,
            count,
            bound,
            pending,
        ) == CountStep::Command,
{
}

/// What is typed goes into the text while inserting and to the commands otherwise, unless
/// something stands before it; what waits for the next key is given it; and while a preview
/// that takes keys fills the screen nothing behind it is.
pub proof fn keys_go_where_they_are_seen(facts: KeyFacts)
    ensures
        ({
            let to = routed(facts);
            let open = !facts.full_preview && !facts.sidebar_focused && facts.waits is None
                && !facts.nothing_open;
            &&& open && facts.mode == Mode::Insert ==> to == KeyRoute::Insert
            &&& open && facts.mode != Mode::Insert ==> to == KeyRoute::Command
            &&& facts.waits == Some(OnKeyCallbackKind::PseudoPending) ==> to == KeyRoute::NextKey
            &&& facts.full_preview && facts.waits is None && !facts.preview_passed ==> to
                == KeyRoute::Preview
            &&& !facts.full_preview && facts.sidebar_focused && facts.waits is None
                && !facts.sidebar_passed ==> to == KeyRoute::Sidebar
            &&& to == KeyRoute::Preview ==> facts.full_preview
            &&& to == KeyRoute::Sidebar ==> facts.sidebar_focused
            &&& to == KeyRoute::Swallow ==> facts.nothing_open && !facts.shortcut
            &&& to == KeyRoute::Insert ==> facts.mode == Mode::Insert
            &&& to == KeyRoute::Command ==> facts.mode != Mode::Insert
        }),
{
}

/// A key is given to one of them: the menu of completions keeps what it takes, and what it
/// ignores goes on to the text. It closes where it said so, of that key or of the Enter before
/// it.
pub proof fn a_key_is_taken_once(key: MenuAnswer, enter: MenuAnswer)
    ensures
        ({
            let step = completed(key, enter);
            &&& step.consumed <==> key == MenuAnswer::Taken || key == MenuAnswer::Closes
            &&& key == MenuAnswer::Closes ==> step.closes
            &&& key == MenuAnswer::Taken ==> !step.closes
            &&& key == MenuAnswer::Ignored ==> (step.closes <==> enter == MenuAnswer::Closes)
            &&& step.waits_now ==> step.closes && !step.consumed
        }),
{
}

/// No character that was typed is lost when the keys lead nowhere, and no other key types one.
pub proof fn what_was_typed_is_typed(event: KeyEvent, c: char)
    ensures
        let_go(event, Some(c)) == CancelStep::Char(c),
        let_go(event, None) == CancelStep::Look(event),
{
}

} // verus!
