//! Open files that something else changes on disk. A buffer without unsaved changes reads the
//! file again. One with changes is left as it is and warned about, once for each change on
//! disk.

use crate::paths::{find_parent, parent_of};
use crate::text::{append_str, chars, copy_texts, same_str, string};
use vstd::prelude::*;

verus! {

/// How long, in milliseconds, a burst of events is let settle before the files are looked at:
/// a save is often a write, a rename and a change of attributes in a row.
pub const SETTLE: u64 = 100;

/// What is watched, and what was told.
#[derive(Debug)]
pub struct DiskChanges {
    /// The paths of the open files, which events are filtered by.
    pub files: Vec<String>,
    /// The directories watched, each one level deep, once a watcher runs. An atomic save
    /// renames a new file over the old one, and a watch on the file itself would go with the
    /// old one.
    pub dirs: Option<Vec<String>>,
    /// A look at the files is already on its way.
    pub pending: bool,
    /// The change on disk each buffer with unsaved changes was last warned about.
    pub warned: Vec<(usize, u64)>,
}

/// What has to be done for the right directories to be watched.
#[derive(Debug)]
pub struct Plan {
    /// A watcher has to be started first.
    pub start: bool,
    pub unwatch: Vec<String>,
    pub watch: Vec<String>,
}

/// The directory of one of the files.
pub open spec fn holds_file(files: Seq<Seq<char>>, dir: Seq<char>) -> bool {
    exists|i: int| 0 <= i < files.len() && parent_of(#[trigger] files[i]) == Some(dir)
}

/// What is watched.
pub open spec fn watched(dirs: Option<Vec<String>>) -> Seq<Seq<char>> {
    match dirs {
        Some(dirs) => dirs.deep_view(),
        None => Seq::empty(),
    }
}

/// The files that are followed: the open ones, and none where that is off.
pub open spec fn followed(open: Seq<Seq<char>>, enabled: bool) -> Seq<Seq<char>> {
    if enabled {
        open
    } else {
        Seq::empty()
    }
}

fn has_text(texts: &Vec<String>, text: &str) -> (r: bool)
    ensures
        r == texts.deep_view().contains(text@),
{
    let ghost all = texts.deep_view();
    let mut n: usize = 0;
    while n < texts.len()
        invariant
            n <= texts@.len(),
            all == texts.deep_view(),
            forall|i: int| 0 <= i < n ==> all[i] != text@,
        decreases texts@.len() - n,
    {
        proof {
            assert(all[n as int] == texts@[n as int]@);
        }
        if same_str(texts[n].as_str(), text) {
            return true;
        }
        n = n + 1;
    }
    false
}

fn copy_text(text: &str) -> (r: String)
    ensures
        r@ == text@,
{
    let letters: Vec<char> = chars(text);
    string(letters.as_slice())
}

fn push_text(texts: &mut Vec<String>, text: String)
    ensures
        final(texts).deep_view() == old(texts).deep_view().push(text@),
{
    let ghost before = texts.deep_view();
    texts.push(text);
    proof {
        assert(texts.deep_view() =~= before.push(text@));
    }
}

proof fn lemma_no_duplicates(texts: Seq<Seq<char>>, text: Seq<char>)
    requires
        texts.no_duplicates(),
        !texts.contains(text),
    ensures
        texts.push(text).no_duplicates(),
        forall|other: Seq<char>|
            texts.push(text).contains(other) == (texts.contains(other) || other == text),
{
    let more = texts.push(text);
    assert forall|other: Seq<char>| more.contains(other) == (texts.contains(other) || other
        == text) by {
        if texts.contains(other) {
            let i = choose|i: int| 0 <= i < texts.len() && texts[i] == other;
            assert(more[i] == other);
        }
        if other == text {
            assert(more[texts.len() as int] == other);
        }
    }
}

fn list_dirs(files: &Vec<String>) -> (r: Vec<String>)
    ensures
        r.deep_view().no_duplicates(),
        forall|dir: Seq<char>|
            r.deep_view().contains(dir) == holds_file(files.deep_view(), dir),
{
    let ghost all = files.deep_view();
    let mut dirs: Vec<String> = Vec::new();
    let mut n: usize = 0;
    proof {
        assert(dirs.deep_view().no_duplicates());
        assert forall|dir: Seq<char>| dirs.deep_view().contains(dir) == holds_file(
            all.take(0),
            dir,
        ) by {}
    }
    while n < files.len()
        invariant
            n <= files@.len(),
            all == files.deep_view(),
            dirs.deep_view().no_duplicates(),
            forall|dir: Seq<char>|
                dirs.deep_view().contains(dir) == holds_file(all.take(n as int), dir),
        decreases files@.len() - n,
    {
        let ghost so_far = all.take(n as int);
        let ghost more = all.take(n + 1);
        let ghost before = dirs.deep_view();
        let parent: Option<String> = find_parent(files[n].as_str());
        proof {
            assert(all[n as int] == files@[n as int]@);
            assert(more =~= so_far.push(all[n as int]));
            assert forall|dir: Seq<char>| holds_file(more, dir) == (holds_file(so_far, dir)
                || parent_of(all[n as int]) == Some(dir)) by {
                if holds_file(so_far, dir) {
                    let i = choose|i: int|
                        0 <= i < so_far.len() && parent_of(#[trigger] so_far[i]) == Some(dir);
                    assert(more[i] == so_far[i]);
                }
                if parent_of(all[n as int]) == Some(dir) {
                    assert(parent_of(more[n as int]) == Some(dir));
                }
                if holds_file(more, dir) {
                    let i = choose|i: int|
                        0 <= i < more.len() && parent_of(#[trigger] more[i]) == Some(dir);
                    if i < n {
                        assert(so_far[i] == more[i]);
                    }
                }
            }
        }
        if let Some(dir) = parent {
            if !has_text(&dirs, dir.as_str()) {
                proof {
                    lemma_no_duplicates(before, dir@);
                }
                push_text(&mut dirs, dir);
            }
        }
        n = n + 1;
        proof {
            assert(all.take(n as int) == more);
            assert forall|dir: Seq<char>| dirs.deep_view().contains(dir) == holds_file(
                all.take(n as int),
                dir,
            ) by {
                assert(holds_file(more, dir) == (holds_file(so_far, dir) || parent_of(all[n - 1])
                    == Some(dir)));
                assert(before.contains(dir) == holds_file(so_far, dir));
            }
        }
    }
    proof {
        assert(all.take(n as int) =~= all);
    }
    dirs
}

/// Those of some texts that are among others, or are not.
fn pick(texts: &Vec<String>, others: &Vec<String>, among: bool) -> (r: Vec<String>)
    requires
        texts.deep_view().no_duplicates(),
    ensures
        r.deep_view().no_duplicates(),
        forall|text: Seq<char>|
            r.deep_view().contains(text) == (texts.deep_view().contains(text)
                && others.deep_view().contains(text) == among),
{
    let ghost all = texts.deep_view();
    let mut out: Vec<String> = Vec::new();
    let mut n: usize = 0;
    while n < texts.len()
        invariant
            n <= texts@.len(),
            all == texts.deep_view(),
            all.no_duplicates(),
            out.deep_view().no_duplicates(),
            forall|text: Seq<char>|
                out.deep_view().contains(text) == (all.take(n as int).contains(text)
                    && others.deep_view().contains(text) == among),
        decreases texts@.len() - n,
    {
        let ghost so_far = all.take(n as int);
        let ghost before = out.deep_view();
        proof {
            assert(all[n as int] == texts@[n as int]@);
            assert(all.take(n + 1) =~= so_far.push(all[n as int]));
            assert(!so_far.contains(all[n as int]));
            assert(so_far.no_duplicates());
            lemma_no_duplicates(so_far, all[n as int]);
        }
        if has_text(others, texts[n].as_str()) == among {
            proof {
                lemma_no_duplicates(before, all[n as int]);
            }
            push_text(&mut out, copy_text(texts[n].as_str()));
        }
        n = n + 1;
        proof {
            assert forall|text: Seq<char>| out.deep_view().contains(text) == (all.take(
                n as int,
            ).contains(text) && others.deep_view().contains(text) == among) by {
                assert(before.contains(text) == (so_far.contains(text)
                    && others.deep_view().contains(text) == among));
                assert(all.take(n as int).contains(text) == (so_far.contains(text) || text == all[n
                    - 1]));
            }
        }
    }
    proof {
        assert(all.take(n as int) =~= all);
    }
    out
}

impl DiskChanges {
    /// No directory is watched twice.
    pub open spec fn wf(self) -> bool {
        watched(self.dirs).no_duplicates()
    }

    pub fn new() -> (r: DiskChanges)
        ensures
            r.wf(),
            r.files@.len() == 0,
            r.dirs is None,
            !r.pending,
            r.warned@.len() == 0,
    {
        let r: DiskChanges = DiskChanges {
            files: Vec::new(),
            dirs: None,
            pending: false,
            warned: Vec::new(),
        };
        r
    }

    /// Follows the open files, and only those; none where that is off. Answers which
    /// directories are watched no more and which have to be: those of the files. What could
    /// be watched is told by `watching`, and a watcher that runs by `started`.
    pub fn sync(&mut self, open: &Vec<String>, enabled: bool) -> (r: Plan)
        requires
            old(self).wf(),
        ensures
            ({
                let files = followed(open.deep_view(), enabled);
                let before = watched(old(self).dirs);
                &&& final(self).files.deep_view() == files
                &&& forall|dir: Seq<char>|
                    r.unwatch.deep_view().contains(dir) == (before.contains(dir) && !holds_file(
                        files,
                        dir,
                    ))
                &&& forall|dir: Seq<char>|
                    r.watch.deep_view().contains(dir) == (holds_file(files, dir)
                        && !before.contains(dir))
                &&& forall|dir: Seq<char>|
                    watched(final(self).dirs).contains(dir) == (before.contains(dir) && holds_file(
                        files,
                        dir,
                    ))
                &&& r.start == (old(self).dirs is None && r.watch@.len() > 0)
            }),
            final(self).wf(),
            r.unwatch.deep_view().no_duplicates(),
            r.watch.deep_view().no_duplicates(),
            (final(self).dirs is Some) == (old(self).dirs is Some),
            final(self).pending == old(self).pending,
            final(self).warned == old(self).warned,
    {
        let files: Vec<String> = if enabled {
            copy_texts(open)
        } else {
            let none: Vec<String> = Vec::new();
            proof {
                assert(none.deep_view() =~= Seq::empty());
            }
            none
        };
        let dirs: Vec<String> = list_dirs(&files);
        self.files = files;
        match &self.dirs {
            Some(before) => {
                let unwatch: Vec<String> = pick(before, &dirs, false);
                let kept: Vec<String> = pick(before, &dirs, true);
                let watch: Vec<String> = pick(&dirs, before, false);
                self.dirs = Some(kept);
                Plan { start: false, unwatch, watch }
            },
            None => {
                let unwatch: Vec<String> = Vec::new();
                Plan { start: dirs.len() > 0, unwatch, watch: dirs }
            },
        }
    }

    /// A watcher runs, that watches nothing yet.
    pub fn started(&mut self)
        ensures
            final(self).dirs is Some && watched(final(self).dirs).len() == 0,
            *final(self) == (DiskChanges { dirs: final(self).dirs, ..*old(self) }),
            final(self).wf(),
    {
        self.dirs = Some(Vec::new());
    }

    /// A directory could be watched.
    pub fn watching(&mut self, dir: String)
        requires
            old(self).wf(),
            old(self).dirs is Some,
        ensures
            final(self).wf(),
            final(self).dirs is Some,
            forall|other: Seq<char>|
                watched(final(self).dirs).contains(other) == (watched(old(self).dirs).contains(
                    other,
                ) || other == dir@),
            *final(self) == (DiskChanges { dirs: final(self).dirs, ..*old(self) }),
    {
        let ghost before = watched(self.dirs);
        let taken: Option<Vec<String>> = self.dirs.take();
        if let Some(dirs) = taken {
            let mut dirs: Vec<String> = dirs;
            if !has_text(&dirs, dir.as_str()) {
                proof {
                    lemma_no_duplicates(before, dir@);
                }
                push_text(&mut dirs, dir);
            }
            self.dirs = Some(dirs);
        }
    }

    /// Whether an event is one of the open files': reading one is none.
    pub open spec fn concerns(self, access: bool, paths: Seq<Seq<char>>) -> bool {
        !access && exists|i: int|
            0 <= i < paths.len() && self.files.deep_view().contains(#[trigger] paths[i])
    }

    /// Whether the files have to be looked at for an event: not while a look is already on
    /// its way.
    pub fn looks(&mut self, access: bool, paths: &Vec<String>) -> (r: bool)
        ensures
            r == (old(self).concerns(access, paths.deep_view()) && !old(self).pending),
            *final(self) == (DiskChanges {
                pending: old(self).pending || old(self).concerns(access, paths.deep_view()),
                ..*old(self)
            }),
    {
        if access {
            return false;
        }
        let ghost all = paths.deep_view();
        let mut n: usize = 0;
        while n < paths.len()
            invariant
                n <= paths@.len(),
                all == paths.deep_view(),
                !access,
                *self == *old(self),
                forall|i: int|
                    0 <= i < n ==> !self.files.deep_view().contains(#[trigger] all[i]),
            decreases paths@.len() - n,
        {
            proof {
                assert(all[n as int] == paths@[n as int]@);
            }
            if has_text(&self.files, paths[n].as_str()) {
                proof {
                    assert(self.files.deep_view().contains(all[n as int]));
                }
                let first: bool = !self.pending;
                self.pending = true;
                return first;
            }
            n = n + 1;
        }
        false
    }

    /// The look that was on its way is made.
    pub fn looking(&mut self)
        ensures
            *final(self) == (DiskChanges { pending: false, ..*old(self) }),
    {
        self.pending = false;
    }
}

// ---------------------------------------------------------------------------------------
// What was found
// ---------------------------------------------------------------------------------------

/// A file written since its buffer last read or saved it: the document, when it was written,
/// and whether it reads the same as the buffer.
#[derive(Debug, Clone, Copy, PartialEq, Eq, Structural)]
pub struct Found {
    pub id: usize,
    pub written: u64,
    pub same: bool,
}

/// What a look at a file finds.
pub open spec fn looked_at(id: usize, written: Option<u64>, saved: u64, same: bool) -> Option<
    Found,
> {
    match written {
        Some(written) => if written > saved {
            Some(Found { id, written, same })
        } else {
            None
        },
        None => None,
    }
}

/// What a look at a file finds: `written` is when it was, where that can be told, `saved` when
/// the buffer last read or saved it, and `same` whether it reads as the buffer does. A save of
/// this very buffer still on its way reads the same.
pub fn look_at(id: usize, written: Option<u64>, saved: u64, same: bool) -> (r: Option<Found>)
    ensures
        r == looked_at(id, written, saved, same),
{
    match written {
        Some(written) => if written > saved {
            Some(Found { id, written, same })
        } else {
            None
        },
        None => None,
    }
}

/// A document when what was found lands.
#[derive(Debug)]
pub struct OpenDocument {
    /// When it was last read or saved.
    pub saved: u64,
    pub has_path: bool,
    pub modified: bool,
    pub name: String,
}

/// What is done about a change on disk.
#[derive(Debug)]
pub enum LandStep {
    Nothing,
    /// The buffer is as the file is: it counts as saved when the file was written.
    Saved(u64),
    Reload,
    /// What is said.
    Warn(String),
}

/// The first warning from `k` on for a document, by number; or the end.
pub open spec fn warning_at(warned: Seq<(usize, u64)>, id: usize, k: int) -> int
    decreases warned.len() - k,
{
    if k >= warned.len() {
        warned.len() as int
    } else if warned[k].0 == id {
        k
    } else {
        warning_at(warned, id, k + 1)
    }
}

/// The change a document was last warned about.
pub open spec fn warned_of(warned: Seq<(usize, u64)>, id: usize) -> Option<u64> {
    let at = warning_at(warned, id, 0);
    if at < warned.len() {
        Some(warned[at].1)
    } else {
        None
    }
}

/// The warnings without a document's.
pub open spec fn forgotten(warned: Seq<(usize, u64)>, id: usize) -> Seq<(usize, u64)> {
    let at = warning_at(warned, id, 0);
    if at < warned.len() {
        warned.remove(at)
    } else {
        warned
    }
}

/// What is said of a buffer with changes whose file was written.
pub open spec fn warning(name: Seq<char>) -> Seq<char> {
    name
        + " changed on disk: :reload takes it and drops your changes, :w! keeps yours"@
}

/// Whether a change on disk is still one when it lands: not where the buffer was saved or read
/// again while the look was out, nor where it is gone.
pub open spec fn lands(enabled: bool, found: Found, doc: Option<OpenDocument>) -> bool {
    enabled && (doc matches Some(doc) && found.written > doc.saved && doc.has_path)
}

/// What is done about a change on disk, and what was warned about then.
pub open spec fn answered_by(
    warned: Seq<(usize, u64)>,
    enabled: bool,
    found: Found,
    doc: Option<OpenDocument>,
    step: LandStep,
    after: Seq<(usize, u64)>,
) -> bool {
    if !lands(enabled, found, doc) {
        step == LandStep::Nothing && after == warned
    } else if found.same {
        step == LandStep::Saved(found.written) && after == forgotten(warned, found.id)
    } else if !(doc->0).modified {
        step == LandStep::Reload && after == forgotten(warned, found.id)
    } else if warned_of(warned, found.id) == Some(found.written) {
        step == LandStep::Nothing && after == warned
    } else {
        step is Warn && step->Warn_0@ == warning((doc->0).name@) && after == forgotten(
            warned,
            found.id,
        ).push((found.id, found.written))
    }
}

impl DiskChanges {
    fn find_warning(&self, id: usize) -> (r: usize)
        ensures
            r == warning_at(self.warned@, id, 0),
            r <= self.warned@.len(),
    {
        let mut k: usize = 0;
        while k < self.warned.len()
            invariant
                k <= self.warned@.len(),
                warning_at(self.warned@, id, 0) == warning_at(self.warned@, id, k as int),
            decreases self.warned@.len() - k,
        {
            if self.warned[k].0 == id {
                return k;
            }
            k = k + 1;
        }
        k
    }

    /// A document is no more, or has no change left to be warned about.
    pub fn forget(&mut self, id: usize)
        ensures
            final(self).warned@ == forgotten(old(self).warned@, id),
            *final(self) == (DiskChanges { warned: final(self).warned, ..*old(self) }),
    {
        let at: usize = self.find_warning(id);
        if at < self.warned.len() {
            let dropped: (usize, u64) = self.warned.remove(at);
        }
    }

    /// What is done about a change on disk. A buffer that reads the same counts as saved, one
    /// without changes reads the file again, and one with changes is warned about, once for
    /// each change.
    pub fn landed(&mut self, enabled: bool, found: Found, doc: &Option<OpenDocument>) -> (r: LandStep)
        ensures
            answered_by(old(self).warned@, enabled, found, *doc, r, final(self).warned@),
            !lands(enabled, found, *doc) ==> *final(self) == *old(self),
            *final(self) == (DiskChanges { warned: final(self).warned, ..*old(self) }),
    {
        if !enabled {
            return LandStep::Nothing;
        }
        let doc: &OpenDocument = match doc {
            Some(doc) => doc,
            None => {
                return LandStep::Nothing;
            },
        };
        if found.written <= doc.saved || !doc.has_path {
            return LandStep::Nothing;
        }
        if found.same {
            self.forget(found.id);
            return LandStep::Saved(found.written);
        }
        if !doc.modified {
            self.forget(found.id);
            return LandStep::Reload;
        }
        let at: usize = self.find_warning(found.id);
        if at < self.warned.len() && self.warned[at].1 == found.written {
            return LandStep::Nothing;
        }
        self.forget(found.id);
        self.warned.push((found.id, found.written));
        let mut text: Vec<char> = chars(doc.name.as_str());
        append_str(
            &mut text,
            " changed on disk: :reload takes it and drops your changes, :w! keeps yours",
        );
        LandStep::Warn(string(text.as_slice()))
    }
}

/// The views a document is read again for: those it is in, or the one in focus where it is in
/// none.
pub fn reload_views(views: Vec<usize>, focused: usize) -> (r: Vec<usize>)
    ensures
        r@ == if views@.len() > 0 {
            views@
        } else {
            seq![focused]
        },
{
    if views.len() > 0 {
        return views;
    }
    let only: Vec<usize> = vec![focused];
    proof {
        assert(only@ =~= seq![focused]);
    }
    only
}

/// What is said of a file that could not be read again.
pub fn reload_failure(path: &str, err: &str) -> (r: String)
    ensures
        r@ == path@ + ": "@ + err@,
{
    let mut text: Vec<char> = chars(path);
    append_str(&mut text, ": ");
    append_str(&mut text, err);
    string(text.as_slice())
}

// ---------------------------------------------------------------------------------------
// Laws
// ---------------------------------------------------------------------------------------

proof fn lemma_warning_at(warned: Seq<(usize, u64)>, id: usize, k: int)
    requires
        0 <= k <= warned.len(),
    ensures
        k <= warning_at(warned, id, k) <= warned.len(),
        warning_at(warned, id, k) < warned.len() ==> warned[warning_at(warned, id, k)].0 == id,
        forall|j: int| k <= j < warning_at(warned, id, k) ==> warned[j].0 != id,
    decreases warned.len() - k,
{
    if k < warned.len() && warned[k].0 != id {
        lemma_warning_at(warned, id, k + 1);
    }
}

/// A change on disk is warned about once: with the warning given, the same change is not one
/// to be warned about again.
pub proof fn a_change_is_warned_about_once(warned: Seq<(usize, u64)>, id: usize, written: u64)
    requires
        forall|i: int, j: int|
            0 <= i < j < warned.len() ==> (#[trigger] warned[i]).0 != (#[trigger] warned[j]).0,
    ensures
        warned_of(forgotten(warned, id).push((id, written)), id) == Some(written),
{
    let rest = forgotten(warned, id);
    let after = rest.push((id, written));
    lemma_warning_at(warned, id, 0);
    lemma_warning_at(after, id, 0);
    let at = warning_at(warned, id, 0);
    let k = warning_at(after, id, 0);
    assert(after[rest.len() as int].0 == id);
    if k < rest.len() {
        if at < warned.len() {
            let p = if k < at {
                k
            } else {
                k + 1
            };
            assert(rest[k] == warned[p]);
            assert(p != at);
            if p < at {
                assert(warned[p].0 != warned[at].0);
            } else {
                assert(warned[at].0 != warned[p].0);
            }
        } else {
            assert(rest[k] == warned[k]);
        }
    }
}

/// What is watched once everything that has to be is: the directories of the open files, and
/// only those.
pub proof fn watching_follows_the_open_files(
    before: Seq<Seq<char>>,
    files: Seq<Seq<char>>,
    kept: Seq<Seq<char>>,
    watch: Seq<Seq<char>>,
    dir: Seq<char>,
)
    requires
        forall|dir: Seq<char>|
            kept.contains(dir) == (before.contains(dir) && holds_file(files, dir)),
        forall|dir: Seq<char>|
            watch.contains(dir) == (holds_file(files, dir) && !before.contains(dir)),
    ensures
        (kept.contains(dir) || watch.contains(dir)) == holds_file(files, dir),
{
}

/// A buffer with unsaved changes is never read again over them, and one without is, wherever
/// the file was written since and reads otherwise; where it reads the same, the buffer counts
/// as saved then. A file that was not written since, or whose buffer is gone, is let be.
pub proof fn no_change_of_yours_is_lost(
    warned: Seq<(usize, u64)>,
    enabled: bool,
    found: Found,
    doc: Option<OpenDocument>,
    step: LandStep,
    after: Seq<(usize, u64)>,
)
    requires
        answered_by(warned, enabled, found, doc, step, after),
    ensures
        step is Reload ==> doc is Some && !(doc->0).modified && !found.same,
        step is Warn ==> doc is Some && (doc->0).modified && !found.same,
        step matches LandStep::Saved(at) ==> found.same && at == found.written,
        doc is None || !enabled ==> step is Nothing,
        doc is Some && found.written <= (doc->0).saved ==> step is Nothing,
        enabled && doc is Some && (doc->0).has_path && found.written > (doc->0).saved ==> {
            &&& found.same ==> step is Saved
            &&& !found.same && !(doc->0).modified ==> step is Reload
            &&& !found.same && (doc->0).modified && (forall|i: int|
                0 <= i < warned.len() ==> (#[trigger] warned[i]).0 != found.id) ==> step is Warn
        },
        step is Nothing ==> after == warned,
{
    lemma_warning_at(warned, found.id, 0);
}

/// A change that was warned about is not warned about again, and a later one is.
pub proof fn each_change_is_told_once(
    warned: Seq<(usize, u64)>,
    found: Found,
    later: Found,
    doc: Option<OpenDocument>,
    step: LandStep,
    after: Seq<(usize, u64)>,
    again: LandStep,
    last: Seq<(usize, u64)>,
)
    requires
        forall|i: int, j: int|
            0 <= i < j < warned.len() ==> (#[trigger] warned[i]).0 != (#[trigger] warned[j]).0,
        answered_by(warned, true, found, doc, step, after),
        step is Warn,
        later.id == found.id,
        later.written >= found.written,
        !later.same,
        answered_by(after, true, later, doc, again, last),
    ensures
        later.written == found.written ==> again is Nothing && last == after,
        later.written > found.written ==> again is Warn,
{
    a_change_is_warned_about_once(warned, found.id, found.written);
}

/// A file is found to have changed where it was written after its buffer was last read or
/// saved, and then its own document and time are told.
pub proof fn only_what_is_newer_is_found(id: usize, written: u64, saved: u64, same: bool)
    ensures
        written > saved ==> looked_at(id, Some(written), saved, same) == Some(
            Found { id, written, same },
        ),
        written <= saved ==> looked_at(id, Some(written), saved, same) is None,
        looked_at(id, None, saved, same) is None,
{
}

} // verus!
