use modux::source::Source;
use modux::state::Stamp;
use modux::table::Table;
use modux::watch::{Change, Event, Note, Task, Upkeep, Watcher};

fn stamp(n: i128) -> Option<Stamp> {
    Some(Stamp { modified: n, size: 1 })
}

fn look(items: &[(&str, i128)]) -> Table<Stamp> {
    let mut t: Table<Stamp> = Table::new();
    for (path, n) in items {
        t.put(path, Stamp { modified: *n, size: 1 });
    }
    t
}

fn watcher(sourcemap: bool, autofix: bool, nudge: bool) -> Watcher {
    let source = Source::from(if sourcemap { Some("s.json") } else { None }, false, "/g");
    Watcher::new(&source, autofix, nudge, stamp(1), look(&[("a", 1)]))
}

fn changed(path: &str) -> Event {
    Event::Looked(look(&[("a", 1), (path, 1)]))
}

#[test]
fn nothing_changed() {
    let mut w = watcher(false, true, true);
    assert_eq!(w.task(), Task::Wait);
    assert!(w.step(Event::Stamped(stamp(1))).is_empty());
    assert_eq!(w.task(), Task::Look);
    assert!(w.step(Event::Looked(look(&[("a", 1)]))).is_empty());
    assert_eq!(w.task(), Task::Wait);
}

#[test]
fn a_file_that_is_new() {
    let mut w = watcher(false, false, true);
    w.step(Event::Stamped(stamp(1)));
    let notes = w.step(changed("b"));
    assert_eq!(notes.len(), 1);
    assert!(matches!(&notes[0], Note::Seen(Change::New, path) if path == "b"));
    assert_eq!(w.task(), Task::Pass);
    let notes = w.step(Event::Passed(Ok(false)));
    assert!(matches!(notes[0], Note::Regenerated));
    assert_eq!(w.task(), Task::Keep(Upkeep::Rebuild));
    assert!(w.step(Event::Kept).is_empty());
    assert_eq!(w.task(), Task::Wait);
    w.step(Event::Stamped(stamp(1)));
    w.step(changed("b"));
    assert_eq!(w.task(), Task::Wait);
}

#[test]
fn a_body_that_changed() {
    let mut w = watcher(false, false, true);
    w.step(Event::Stamped(stamp(1)));
    let notes = w.step(Event::Looked(look(&[("a", 2)])));
    assert!(matches!(&notes[0], Note::Seen(Change::Changed, path) if path == "a"));
    w.step(Event::Passed(Ok(true)));
    assert_eq!(w.task(), Task::Keep(Upkeep::Touch));
    w.step(Event::Kept);
    w.step(Event::Stamped(stamp(1)));
    w.step(Event::Looked(look(&[("a", 3)])));
    w.step(Event::Passed(Ok(false)));
    assert_eq!(w.task(), Task::Wait);
}

#[test]
fn a_source_that_changed_is_read_again() {
    let mut w = watcher(false, false, true);
    w.step(Event::Stamped(stamp(2)));
    assert_eq!(w.task(), Task::Reload);
    let notes = w.step(Event::Reloaded(Ok(())));
    assert!(matches!(notes[0], Note::Reloaded));
    assert!(w.step(Event::Looked(look(&[("a", 1)]))).is_empty());
    assert_eq!(w.task(), Task::Pass);
    w.step(Event::Passed(Ok(false)));
    assert_eq!(w.task(), Task::Keep(Upkeep::Rebuild));
}

#[test]
fn a_source_that_cannot_be_read_again() {
    let mut w = watcher(false, false, true);
    w.step(Event::Stamped(None));
    let notes = w.step(Event::Reloaded(Err("gone".to_string())));
    assert!(matches!(&notes[0], Note::NotReloaded(e) if e == "gone"));
    assert_eq!(w.task(), Task::Look);
    w.step(Event::Looked(look(&[("a", 1)])));
    assert_eq!(w.task(), Task::Wait);
    w.step(Event::Stamped(None));
    assert_eq!(w.task(), Task::Look);
}

#[test]
fn a_module_that_is_moved_moves_the_tree() {
    let mut w = watcher(false, true, true);
    w.step(Event::Stamped(stamp(1)));
    w.step(Event::Looked(look(&[("a", 2)])));
    assert_eq!(w.task(), Task::Fix);
    assert!(w.step(Event::Fixed(true)).is_empty());
    assert_eq!(w.task(), Task::Look);
    assert!(w.step(changed("b")).is_empty());
    assert_eq!(w.task(), Task::Pass);
    let notes = w.step(Event::Passed(Err("path outside default.project.json: b".to_string())));
    assert!(matches!(notes[0], Note::Awaiting));
    assert_eq!(w.task(), Task::Keep(Upkeep::Rebuild));
}

#[test]
fn a_pass_that_fails() {
    let mut w = watcher(false, true, true);
    w.step(Event::Stamped(stamp(1)));
    w.step(Event::Looked(look(&[("a", 2)])));
    w.step(Event::Fixed(false));
    let notes = w.step(Event::Passed(Err("path outside default.project.json: b".to_string())));
    assert!(matches!(&notes[0], Note::Failed(e) if e == "path outside default.project.json: b"));
    assert_eq!(w.task(), Task::Wait);
}

#[test]
fn a_sourcemap_of_someone_else_is_only_touched() {
    let mut w = watcher(true, false, true);
    w.step(Event::Stamped(stamp(2)));
    w.step(Event::Reloaded(Ok(())));
    w.step(changed("b"));
    w.step(Event::Passed(Ok(true)));
    assert_eq!(w.task(), Task::Keep(Upkeep::Touch));
}

#[test]
fn without_the_flag_the_sourcemap_is_left_alone() {
    let mut w = watcher(false, false, false);
    w.step(Event::Stamped(stamp(2)));
    w.step(Event::Reloaded(Ok(())));
    w.step(changed("b"));
    w.step(Event::Passed(Ok(true)));
    assert_eq!(w.task(), Task::Wait);
}

#[test]
fn an_event_that_was_not_asked_for() {
    let mut w = watcher(false, true, true);
    assert!(w.step(Event::Kept).is_empty());
    assert!(w.step(Event::Passed(Ok(true))).is_empty());
    assert!(w.step(changed("b")).is_empty());
    assert_eq!(w.task(), Task::Wait);
    w.step(Event::Stamped(stamp(1)));
    assert_eq!(w.step(changed("b")).len(), 1);
}
