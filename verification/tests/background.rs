//! Git, saving on its own, files changed on disk, and the small things underneath.

use sid_term::auto_save::{
    on_change, on_mode_switch, save_on_leaving, AutoSaveEvent, AutoSaveHandler,
};
use sid_term::disk_changes::{
    look_at, reload_failure, reload_views, DiskChanges, Found, LandStep, OpenDocument,
};
use sid_term::filter::{filtered, split_words};
use sid_term::git::{
    blame_line, blamed, file_history, review_code_toggle, review_commits_toggle,
    review_context_toggle, review_cycle, review_files_toggle, review_side_by_side_toggle, Blame,
    BlameRequest, BlameStep, Commit, Context, GitTask,
};
use sid_term::graphics::Rect;
use sid_term::keymap::Mode;
use sid_term::text::{replace, trim, whitespace};

#[test]
fn white_space_is_what_std_says() {
    for code in 0..=0x10ffffu32 {
        if let Some(c) = char::from_u32(code) {
            assert_eq!(whitespace(c), c.is_whitespace(), "{code:x}");
        }
    }
}

#[test]
fn texts_are_trimmed_split_and_replaced() {
    let letters = |text: &str| text.chars().collect::<Vec<char>>();
    assert_eq!(trim(&letters("  a b ")), letters("a b"));
    assert_eq!(split_words(&letters(" one\ttwo\nthree ")), ["one", "two", "three"]);
    assert_eq!(replace(&letters("aXbXX"), "X", "--"), letters("a--b----"));
}

#[test]
fn rectangles_meet() {
    let a = Rect { x: 0, y: 0, width: 10, height: 10 };
    let b = Rect { x: 5, y: 8, width: 10, height: 10 };
    assert_eq!(a.intersection(b), Rect { x: 5, y: 8, width: 5, height: 2 });
    let apart = Rect { x: 20, y: 0, width: 1, height: 1 };
    assert_eq!(a.intersection(apart).width, 0);
}

#[test]
fn a_filter_shows_what_has_every_word() {
    let texts = vec!["wrap long lines".to_string(), "long names".to_string()];
    assert_eq!(filtered("long", &texts), [0, 1]);
    assert_eq!(filtered("lines long", &texts), [0]);
    assert_eq!(filtered("", &texts), [0, 1]);
}

// Git

fn request(line: usize) -> BlameRequest {
    BlameRequest { path: "/a.rs".into(), line, revision: None }
}

#[test]
fn a_line_blamed_again_opens_its_commit() {
    let mut last = None;
    assert!(matches!(blame_line(&last, Some(request(3)), None, false), BlameStep::Ask(_)));
    let blame = Blame {
        author: "Ada".into(),
        commit: Some(Commit { short: "abc123".into(), subject: "Fix it".into(), age: "2 days".into() }),
    };
    assert_eq!(
        blamed(&mut last, request(3), Ok(blame)).unwrap(),
        "abc123 \u{b7} Ada \u{b7} 2 days ago \u{b7} Fix it (blame again to open it)"
    );
    let BlameStep::OpenCommit(opened) = blame_line(&last, Some(request(3)), None, false) else {
        panic!("the commit is opened");
    };
    assert_eq!(opened.short, last.as_ref().unwrap().blame.commit.as_ref().unwrap().short);
    assert!(matches!(blame_line(&last, Some(request(4)), None, false), BlameStep::Ask(_)));
    let other = BlameRequest { revision: Some("HEAD".into()), ..request(3) };
    assert!(matches!(blame_line(&last, None, Some(other), true), BlameStep::Ask(_)));
    assert!(matches!(
        blame_line(&last, None, None, true),
        BlameStep::Refused("Put the cursor on a line of code to blame it")
    ));
    assert!(matches!(
        blame_line(&last, None, None, false),
        BlameStep::Refused("The buffer has no file to blame")
    ));
    assert_eq!(blamed(&mut last, request(9), Err("no git".into())).unwrap_err(), "no git");
    assert_eq!(last.as_ref().unwrap().line, 3);
    let fresh = Blame { author: "Ada".into(), commit: None };
    assert_eq!(blamed(&mut last, request(5), Ok(fresh)).unwrap(), "Not committed yet");
    assert!(matches!(blame_line(&last, Some(request(5)), None, false), BlameStep::NotCommitted));
}

#[test]
fn commands_leave_what_is_done_next() {
    let mut cx = Context::new();
    file_history(&mut cx, None);
    assert_eq!(cx.error.as_deref(), Some("The buffer has no file to show the history of"));
    file_history(&mut cx, Some("/a.rs".into()));
    review_cycle(&mut cx);
    review_commits_toggle(&mut cx);
    review_code_toggle(&mut cx);
    review_files_toggle(&mut cx);
    review_context_toggle(&mut cx);
    review_side_by_side_toggle(&mut cx);
    assert!(matches!(
        cx.callback[..],
        [
            GitTask::ShowHistory(_),
            GitTask::CycleReview,
            GitTask::ToggleCommits,
            GitTask::ToggleCode,
            GitTask::ToggleCommitFiles,
            GitTask::ToggleContext,
            GitTask::ToggleSideBySide
        ]
    ));
}

// Saving

#[test]
fn a_changed_document_is_saved_once() {
    let mut handler = AutoSaveHandler::new();
    let changed = AutoSaveEvent::DocumentChanged { save_after: 3000, doc: 4 };
    let step = handler.handle_event(changed, None, 1000);
    assert_eq!((step.debounce, step.finish), (Some(4000), false));
    handler.handle_event(changed, Some(4000), 2000);
    assert_eq!(handler.pending, [4]);
    // A save that is due runs down; one that waited for insert mode is made at once.
    let step = handler.handle_event(AutoSaveEvent::LeftInsertMode, Some(5000), 2500);
    assert_eq!((step.debounce, step.finish), (Some(5000), false));
    assert!(handler.finish_debounce(Mode::Insert, Mode::Normal).is_none());
    let step = handler.handle_event(AutoSaveEvent::LeftInsertMode, None, 6000);
    assert!(step.finish);
    assert_eq!(handler.finish_debounce(Mode::Normal, Mode::Normal), Some(vec![4]));
    assert!(handler.pending.is_empty());
    assert!(!handler.handle_event(AutoSaveEvent::LeftInsertMode, None, 6000).finish);
    handler.handle_event(changed, None, 0);
    assert_eq!(handler.finish_debounce(Mode::Insert, Mode::Insert), Some(vec![4]));
}

#[test]
fn what_asks_for_a_save() {
    assert_eq!(on_change(false, 1, 2), None);
    assert_eq!(on_change(true, 1, 2), Some(AutoSaveEvent::DocumentChanged { save_after: 1, doc: 2 }));
    assert_eq!(on_mode_switch(Mode::Insert), Some(AutoSaveEvent::LeftInsertMode));
    assert_eq!(on_mode_switch(Mode::Normal), None);
    assert!(save_on_leaving(true, true, true, true));
    assert!(!save_on_leaving(true, true, true, false));
}

// Changes on disk

fn sorted(mut texts: Vec<String>) -> Vec<String> {
    texts.sort();
    texts
}

#[test]
fn the_directories_of_the_open_files_are_watched() {
    let mut changes = DiskChanges::new();
    assert!(!changes.sync(&vec![], true).start);
    let open: Vec<String> = vec!["/w/a.rs".into(), "/w/b.rs".into(), "/v/c.rs".into()];
    let plan = changes.sync(&open, true);
    assert!(plan.start);
    assert_eq!(sorted(plan.watch.clone()), ["/v", "/w"]);
    changes.started();
    for dir in plan.watch {
        changes.watching(dir);
    }
    let plan = changes.sync(&vec!["/w/a.rs".into(), "/u/d.rs".into()], true);
    assert_eq!(plan.unwatch, ["/v"]);
    assert_eq!(plan.watch, ["/u"]);
    let plan = changes.sync(&open, false);
    assert_eq!(plan.unwatch, ["/w"]);
    assert!(plan.watch.is_empty() && changes.files.is_empty());
}

#[test]
fn one_look_at_a_time() {
    let mut changes = DiskChanges::new();
    changes.sync(&vec!["/w/a.rs".into()], true);
    assert!(!changes.looks(true, &vec!["/w/a.rs".into()]));
    assert!(!changes.looks(false, &vec!["/w/other.rs".into()]));
    assert!(changes.looks(false, &vec!["/w/other.rs".into(), "/w/a.rs".into()]));
    assert!(!changes.looks(false, &vec!["/w/a.rs".into()]));
    changes.looking();
    assert!(changes.looks(false, &vec!["/w/a.rs".into()]));
}

#[test]
fn a_change_is_taken_read_or_warned_about_once() {
    assert_eq!(look_at(1, Some(10), 10, false), None);
    assert_eq!(look_at(1, None, 10, false), None);
    let found = look_at(1, Some(20), 10, false).unwrap();
    assert_eq!(found, Found { id: 1, written: 20, same: false });
    let doc = |saved, modified| {
        Some(OpenDocument { saved, has_path: true, modified, name: "a.rs".into() })
    };
    let mut changes = DiskChanges::new();
    assert!(matches!(changes.landed(false, found, &doc(10, false)), LandStep::Nothing));
    assert!(matches!(changes.landed(true, found, &doc(20, false)), LandStep::Nothing));
    assert!(matches!(changes.landed(true, found, &None), LandStep::Nothing));
    assert!(matches!(changes.landed(true, found, &doc(10, false)), LandStep::Reload));
    let same = Found { same: true, ..found };
    assert!(matches!(changes.landed(true, same, &doc(10, true)), LandStep::Saved(20)));
    assert!(matches!(
        changes.landed(true, found, &doc(10, true)),
        LandStep::Warn(said) if said == "a.rs changed on disk: :reload takes it and drops your changes, :w! keeps yours"
    ));
    assert!(matches!(changes.landed(true, found, &doc(10, true)), LandStep::Nothing));
    let again = Found { written: 30, ..found };
    assert!(matches!(changes.landed(true, again, &doc(10, true)), LandStep::Warn(_)));
    changes.forget(1);
    assert!(matches!(changes.landed(true, again, &doc(10, true)), LandStep::Warn(_)));
}

#[test]
fn a_file_is_read_again_for_the_views_it_is_in() {
    assert_eq!(reload_views(vec![3, 4], 9), [3, 4]);
    assert_eq!(reload_views(vec![], 9), [9]);
    assert_eq!(reload_failure("/a.rs", "gone"), "/a.rs: gone");
}
