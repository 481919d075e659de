//! Saving files on their own: some time after a change, and on leaving a file.

use crate::keymap::Mode;
use vstd::prelude::*;

verus! {

/// What can bring a save about.
#[derive(Debug, Clone, Copy, PartialEq, Eq, Structural)]
pub enum AutoSaveEvent {
    /// A document changed, and is saved after so many milliseconds.
    DocumentChanged { save_after: u64, doc: usize },
    LeftInsertMode,
}

/// The documents changed since the last delayed save, waiting for it: only those are written,
/// not every modified document there is.
#[derive(Debug)]
pub struct AutoSaveHandler {
    pub pending: Vec<usize>,
}

/// What an event means for the save: when it is due, if it is, and whether it is due at once.
#[derive(Debug, Clone, Copy, PartialEq, Eq)]
pub struct SaveStep {
    pub debounce: Option<u64>,
    pub finish: bool,
}

/// A time some milliseconds on.
pub open spec fn later(now: u64, wait: u64) -> u64 {
    if now + wait > u64::MAX {
        u64::MAX
    } else {
        (now + wait) as u64
    }
}

/// The documents with one more, which waits once.
pub open spec fn waiting(pending: Seq<usize>, doc: usize) -> Seq<usize> {
    if pending.contains(doc) {
        pending
    } else {
        pending.push(doc)
    }
}

/// What waits once an event was read, and what it means for the save.
pub open spec fn after_event(
    pending: Seq<usize>,
    event: AutoSaveEvent,
    existing: Option<u64>,
    now: u64,
) -> (Seq<usize>, SaveStep) {
    match event {
        AutoSaveEvent::DocumentChanged { save_after, doc } => (
            waiting(pending, doc),
            SaveStep { debounce: Some(later(now, save_after)), finish: false },
        ),
        AutoSaveEvent::LeftInsertMode => (
            pending,
            SaveStep { debounce: existing, finish: existing is None && pending.len() > 0 },
        ),
    }
}

/// What is written once the save is due, where it is, and what waits then.
pub open spec fn due(pending: Seq<usize>, mode: Mode, default_mode: Mode) -> (
    Option<Seq<usize>>,
    Seq<usize>,
) {
    if mode == Mode::Insert && default_mode != Mode::Insert {
        (None, pending)
    } else {
        (Some(pending), Seq::empty())
    }
}

impl AutoSaveHandler {
    pub fn new() -> (r: AutoSaveHandler)
        ensures
            r.pending@.len() == 0,
    {
        AutoSaveHandler { pending: Vec::new() }
    }

    fn waits(&self, doc: usize) -> (r: bool)
        ensures
            r == self.pending@.contains(doc),
    {
        let mut n: usize = 0;
        while n < self.pending.len()
            invariant
                n <= self.pending@.len(),
                forall|i: int| 0 <= i < n ==> self.pending@[i] != doc,
            decreases self.pending@.len() - n,
        {
            if self.pending[n] == doc {
                return true;
            }
            n = n + 1;
        }
        false
    }

    /// Reads an event at a time in milliseconds, while a save is due at `existing` or none is.
    /// A change puts the save off. Leaving insert mode lets a save that is due run down, and
    /// without one saves at once what waits.
    pub fn handle_event(&mut self, event: AutoSaveEvent, existing: Option<u64>, now: u64) -> (r:
        SaveStep)
        ensures
            (final(self).pending@, r) == after_event(old(self).pending@, event, existing, now),
            event is LeftInsertMode ==> final(self).pending == old(self).pending,
    {
        match event {
            AutoSaveEvent::DocumentChanged { save_after, doc } => {
                if !self.waits(doc) {
                    self.pending.push(doc);
                }
                SaveStep { debounce: Some(now.saturating_add(save_after)), finish: false }
            },
            AutoSaveEvent::LeftInsertMode => {
                SaveStep {
                    debounce: existing,
                    finish: existing.is_none() && self.pending.len() > 0,
                }
            },
        }
    }

    /// The save is due: answers the documents to be written. Where insert is a mode that is
    /// left again, it waits for that, and what waits stays.
    pub fn finish_debounce(&mut self, mode: Mode, default_mode: Mode) -> (r: Option<Vec<usize>>)
        ensures
            r is None ==> final(self).pending == old(self).pending,
            r matches Some(written) ==> written == old(self).pending,
            match r {
                Some(written) => due(old(self).pending@, mode, default_mode) == (
                    Some(written@),
                    final(self).pending@,
                ),
                None => due(old(self).pending@, mode, default_mode) == (
                    None::<Seq<usize>>,
                    final(self).pending@,
                ),
            },
    {
        if mode == Mode::Insert && default_mode != Mode::Insert {
            return None;
        }
        let mut docs: Vec<usize> = Vec::new();
        core::mem::swap(&mut docs, &mut self.pending);
        Some(docs)
    }
}

/// What a change of a document asks for.
pub open spec fn change_asks(enabled: bool, timeout: u64, doc: usize) -> Option<AutoSaveEvent> {
    if enabled {
        Some(AutoSaveEvent::DocumentChanged { save_after: timeout, doc })
    } else {
        None
    }
}

/// What another mode asks for.
pub open spec fn switch_asks(old_mode: Mode) -> Option<AutoSaveEvent> {
    if old_mode == Mode::Insert {
        Some(AutoSaveEvent::LeftInsertMode)
    } else {
        None
    }
}

/// What a change of a document asks for, where delayed saves are on.
pub fn on_change(enabled: bool, timeout: u64, doc: usize) -> (r: Option<AutoSaveEvent>)
    ensures
        r == change_asks(enabled, timeout, doc),
{
    if enabled {
        Some(AutoSaveEvent::DocumentChanged { save_after: timeout, doc })
    } else {
        None
    }
}

/// What another mode asks for.
pub fn on_mode_switch(old_mode: Mode) -> (r: Option<AutoSaveEvent>)
    ensures
        r == switch_asks(old_mode),
{
    if old_mode == Mode::Insert {
        Some(AutoSaveEvent::LeftInsertMode)
    } else {
        None
    }
}

/// Whether leaving a file saves it.
pub open spec fn leaving_saves(enabled: bool, open: bool, modified: bool, has_path: bool) -> bool {
    enabled && open && modified && has_path
}

/// Whether a file that was moved away from is saved, the way leaving the terminal saves it:
/// the tab that was left would otherwise be the only place the work lives. A file being closed
/// is gone by now, and one never written has nowhere to go.
pub fn save_on_leaving(enabled: bool, open: bool, modified: bool, has_path: bool) -> (r: bool)
    ensures
        r == leaving_saves(enabled, open, modified, has_path),
{
    enabled && open && modified && has_path
}

/// A document that waits is written once, however often it changes.
pub proof fn a_document_waits_once(pending: Seq<usize>, doc: usize)
    requires
        pending.no_duplicates(),
    ensures
        waiting(pending, doc).no_duplicates(),
        waiting(pending, doc).contains(doc),
        waiting(waiting(pending, doc), doc) == waiting(pending, doc),
{
    let after = waiting(pending, doc);
    if !pending.contains(doc) {
        assert(after[pending.len() as int] == doc);
    }
}

/// A document that changes is among those written when the save is next due, with all that
/// waited before it; the save is due the time after the change that was asked for, and not at
/// once.
pub proof fn what_changes_is_saved(
    pending: Seq<usize>,
    doc: usize,
    save_after: u64,
    existing: Option<u64>,
    now: u64,
    mode: Mode,
    default_mode: Mode,
)
    requires
        mode != Mode::Insert || default_mode == Mode::Insert,
    ensures
        ({
            let (waits, step) = after_event(
                pending,
                AutoSaveEvent::DocumentChanged { save_after, doc },
                existing,
                now,
            );
            let (written, left) = due(waits, mode, default_mode);
            &&& !step.finish
            &&& now + save_after <= u64::MAX ==> step.debounce == Some((now + save_after) as u64)
            &&& step.debounce is Some && step.debounce->0 >= now
            &&& written is Some
            &&& written->0.contains(doc)
            &&& forall|other: usize|
                #![trigger written->0.contains(other)]
                other != doc ==> written->0.contains(other) == pending.contains(other)
            &&& left.len() == 0
        }),
{
    let more = pending.push(doc);
    assert(more[pending.len() as int] == doc);
    assert forall|other: usize| #![trigger more.contains(other)] other != doc implies more.contains(
        other,
    ) == pending.contains(other) by {
        if pending.contains(other) {
            let i = choose|i: int| 0 <= i < pending.len() && pending[i] == other;
            assert(more[i] == other);
        }
    }
}

/// While typing, where that is a mode to be left, nothing is written and nothing forgotten;
/// leaving it saves at once what waits, unless a save is on its way already.
pub proof fn typing_is_not_interrupted(pending: Seq<usize>, default_mode: Mode, now: u64, at: u64)
    requires
        default_mode != Mode::Insert,
    ensures
        due(pending, Mode::Insert, default_mode) == (None::<Seq<usize>>, pending),
        ({
            let (waits, step) = after_event(pending, AutoSaveEvent::LeftInsertMode, None, now);
            waits == pending && (step.finish <==> pending.len() > 0) && step.debounce is None
        }),
        ({
            let (waits, step) = after_event(pending, AutoSaveEvent::LeftInsertMode, Some(at), now);
            waits == pending && !step.finish && step.debounce == Some(at)
        }),
{
}

/// Leaving a file saves it where that is on and there is something to save and somewhere to
/// save it to; any of these missing, nothing is written.
pub proof fn leaving_saves_what_there_is(enabled: bool, open: bool, modified: bool, has_path: bool)
    ensures
        leaving_saves(true, true, true, true),
        leaving_saves(enabled, open, modified, has_path) ==> modified && has_path && open
            && enabled,
{
}

/// Nothing is asked for where delayed saves are off, and a change asks for its own document to
/// be saved after the time that is set. Only leaving the mode of typing asks for a save.
pub proof fn changes_ask_for_their_document(timeout: u64, doc: usize, mode: Mode)
    ensures
        change_asks(false, timeout, doc) is None,
        change_asks(true, timeout, doc) matches Some(AutoSaveEvent::DocumentChanged {
            save_after,
            doc: saved,
        }) && save_after == timeout && saved == doc,
        switch_asks(mode) is Some <==> mode == Mode::Insert,
{
}

} // verus!
