//! What a watcher makes of two looks at the files.

use vstd::prelude::*;

use crate::paths;
use crate::source::{Source, SourceView};
use crate::state::Stamp;
use crate::table::{self, Rows, Table};
use crate::text::{self, chars_of, copy, Text};

verus! {

/// What has become of a file.
#[derive(Debug, Clone, Copy, PartialEq, Eq, Structural)]
pub enum Change {
    New,
    Deleted,
    Changed,
}

impl DeepView for Change {
    type V = Change;

    open spec fn deep_view(&self) -> Change {
        *self
    }
}

/// A change in a word.
pub open spec fn label_of(change: Change) -> Text {
    match change {
        Change::New => "new"@,
        Change::Deleted => "deleted"@,
        Change::Changed => "changed"@,
    }
}

impl Change {
    /// The change in a word.
    pub fn label(self) -> (r: &'static str)
        ensures
            r@ == label_of(self),
    {
        match self {
            Change::New => "new",
            Change::Deleted => "deleted",
            Change::Changed => "changed",
        }
    }
}

/// What has become of a file between two looks.
pub open spec fn change_of(previous: Rows<Stamp>, current: Rows<Stamp>, path: Text) -> Option<
    Change,
> {
    match (table::get(previous, path), table::get(current, path)) {
        (None, None) => None,
        (None, Some(_)) => Some(Change::New),
        (Some(_), None) => Some(Change::Deleted),
        (Some(a), Some(b)) => if a == b {
            None
        } else {
            Some(Change::Changed)
        },
    }
}

/// What has become of some files, in order.
pub open spec fn changes_at(
    files: Seq<Text>,
    previous: Rows<Stamp>,
    current: Rows<Stamp>,
) -> Seq<(Change, Text)>
    decreases files.len(),
{
    if files.len() == 0 {
        Seq::empty()
    } else {
        let some = changes_at(files.drop_last(), previous, current);
        match change_of(previous, current, files.last()) {
            Some(c) => some.push((c, files.last())),
            None => some,
        }
    }
}

/// All the files of two looks, in the order of their paths.
pub open spec fn all_files(previous: Rows<Stamp>, current: Rows<Stamp>) -> Seq<Text> {
    paths::path_set(table::keys(current) + table::keys(previous))
}

/// What has become of the files between two looks, in the order of the paths.
pub open spec fn changes(previous: Rows<Stamp>, current: Rows<Stamp>) -> Seq<(Change, Text)> {
    changes_at(all_files(previous, current), previous, current)
}

/// What has become of a file between two looks.
fn change_at(previous: &Table<Stamp>, current: &Table<Stamp>, path: &str) -> (r: Option<Change>)
    ensures
        r == change_of(previous@, current@, path@),
{
    match (previous.get(path), current.get(path)) {
        (None, None) => None,
        (None, Some(_)) => Some(Change::New),
        (Some(_), None) => Some(Change::Deleted),
        (Some(a), Some(b)) => if *a == *b {
            None
        } else {
            Some(Change::Changed)
        },
    }
}

/// Adds the files of a look to a set.
fn add_files(set: &mut Vec<String>, look: &Table<Stamp>, Ghost(before): Ghost<Seq<Text>>)
    requires
        old(set).deep_view() == paths::path_set(before),
    ensures
        final(set).deep_view() == paths::path_set(before + table::keys(look@)),
{
    let ghost names = table::keys(look@);
    let n: usize = look.len();
    let mut i: usize = 0;
    assert(before + names.take(0) =~= before);
    while i < n
        invariant
            i <= n == look@.len(),
            names == table::keys(look@),
            set.deep_view() == paths::path_set(before + names.take(i as int)),
        decreases n - i,
    {
        assert((before + names.take(i + 1)).drop_last() =~= before + names.take(i as int));
        assert((before + names.take(i + 1)).last() == names[i as int]);
        paths::add_path(set, look.key(i).as_str());
        i = i + 1;
    }
    assert(names.take(i as int) =~= names);
}

/// What has become of the files between two looks.
pub fn diff(previous: &Table<Stamp>, current: &Table<Stamp>) -> (r: Vec<(Change, String)>)
    ensures
        r.deep_view() == changes(previous@, current@),
{
    let mut files: Vec<String> = Vec::new();
    assert(files.deep_view() =~= paths::path_set(Seq::empty()));
    add_files(&mut files, current, Ghost(Seq::empty()));
    assert(Seq::empty() + table::keys(current@) =~= table::keys(current@));
    add_files(&mut files, previous, Ghost(table::keys(current@)));
    let ghost all = files.deep_view();
    let mut out: Vec<(Change, String)> = Vec::new();
    let mut i: usize = 0;
    assert(out.deep_view() =~= Seq::empty());
    while i < files.len()
        invariant
            all == files.deep_view(),
            i <= all.len(),
            out.deep_view() == changes_at(all.take(i as int), previous@, current@),
        decreases files.len() - i,
    {
        assert(all.take(i + 1).drop_last() =~= all.take(i as int));
        assert(all[i as int] == files@[i as int]@);
        if let Some(c) = change_at(previous, current, files[i].as_str()) {
            text::push(&mut out, (c, copy(files[i].as_str())));
        }
        i = i + 1;
    }
    assert(all.take(i as int) =~= all);
    out
}

/// A file has come or gone. To change what a file holds does not move the tree.
pub open spec fn moves_tree(changes: Seq<(Change, Text)>) -> bool {
    exists|i: int| 0 <= i < changes.len() && (#[trigger] changes[i]).0 != Change::Changed
}

/// Whether a file has come or gone.
pub fn tree_moved(changes: &Vec<(Change, String)>) -> (r: bool)
    ensures
        r == moves_tree(changes.deep_view()),
{
    let ghost all = changes.deep_view();
    let mut i: usize = 0;
    while i < changes.len()
        invariant
            all == changes.deep_view(),
            i <= all.len(),
            forall|j: int| 0 <= j < i ==> (#[trigger] all[j]).0 == Change::Changed,
        decreases changes.len() - i,
    {
        assert(all[i as int].0 == changes@[i as int].0);
        if changes[i].0 != Change::Changed {
            return true;
        }
        i = i + 1;
    }
    false
}

/// Whether two looks show the same.
pub fn unchanged(previous: &Table<Stamp>, current: &Table<Stamp>) -> (r: bool)
    ensures
        r == (previous@ == current@),
{
    let n: usize = previous.len();
    if n != current.len() {
        return false;
    }
    let mut i: usize = 0;
    while i < n
        invariant
            i <= n == previous@.len() == current@.len(),
            forall|j: int| 0 <= j < i ==> previous@[j] == current@[j],
        decreases n - i,
    {
        if !text::same(previous.key(i).as_str(), current.key(i).as_str()) || *previous.value(i)
            != *current.value(i) {
            assert(previous@[i as int] != current@[i as int]);
            return false;
        }
        i = i + 1;
    }
    assert(previous@ =~= current@);
    true
}

/// What to do with the sourcemap on disk.
#[derive(Debug, Clone, Copy, PartialEq, Eq, Structural)]
pub enum Upkeep {
    /// Nothing.
    Leave,
    /// Make it again, from the project file.
    Rebuild,
    /// Write it once more as it is, which is what a language server listens to.
    Touch,
}

/// What to do with the sourcemap. One that is derived from the project file is
/// made again when the tree or the project file changed. Any other is only
/// touched, as it is when no more than a leaf was written.
pub open spec fn upkeep_of(
    asked: bool,
    reloaded: bool,
    moved: bool,
    wrote: bool,
    owned: bool,
) -> Upkeep {
    if !asked {
        Upkeep::Leave
    } else if (reloaded || moved) && owned {
        Upkeep::Rebuild
    } else if wrote || reloaded || moved {
        Upkeep::Touch
    } else {
        Upkeep::Leave
    }
}

/// What to do with the sourcemap after a pass.
pub fn upkeep(asked: bool, reloaded: bool, moved: bool, wrote: bool, owned: bool) -> (r: Upkeep)
    ensures
        r == upkeep_of(asked, reloaded, moved, wrote, owned),
{
    if !asked {
        Upkeep::Leave
    } else if (reloaded || moved) && owned {
        Upkeep::Rebuild
    } else if wrote || reloaded || moved {
        Upkeep::Touch
    } else {
        Upkeep::Leave
    }
}

/// An error only tells that a folder which was just made is not in the project
/// file yet.
pub open spec fn awaited(just_moved: bool, message: Text) -> bool {
    just_moved && exists|i: int| text::occurs_at(message, "outside"@, i)
}

/// Whether an error is to be waited out.
pub fn is_awaited(just_moved: bool, message: &str) -> (r: bool)
    ensures
        r == awaited(just_moved, message@),
{
    just_moved && text::find(&chars_of(message), &chars_of("outside"), 0).is_some()
}

/// Where nothing changed nothing is reported.
pub proof fn law_no_change(look: Rows<Stamp>)
    ensures
        changes(look, look) == Seq::<(Change, Text)>::empty(),
{
    lemma_no_change(all_files(look, look), look);
}

proof fn lemma_no_change(files: Seq<Text>, look: Rows<Stamp>)
    ensures
        changes_at(files, look, look) == Seq::<(Change, Text)>::empty(),
    decreases files.len(),
{
    if files.len() > 0 {
        lemma_no_change(files.drop_last(), look);
    }
}

proof fn lemma_changes_at(
    files: Seq<Text>,
    previous: Rows<Stamp>,
    current: Rows<Stamp>,
    change: Change,
    path: Text,
)
    ensures
        changes_at(files, previous, current).contains((change, path)) <==> files.contains(path)
            && change_of(previous, current, path) == Some(change),
    decreases files.len(),
{
    if files.len() > 0 {
        let rest = files.drop_last();
        lemma_changes_at(rest, previous, current, change, path);
        let some = changes_at(rest, previous, current);
        let all = changes_at(files, previous, current);
        if all.contains((change, path)) {
            let i = choose|i: int| 0 <= i < all.len() && all[i] == (change, path);
            if i < some.len() {
                assert(some[i] == (change, path));
                assert(some.contains((change, path)));
                let k = choose|k: int| 0 <= k < rest.len() && rest[k] == path;
                assert(files[k] == path);
            } else {
                assert(files[files.len() - 1] == path);
            }
        }
        if files.contains(path) && change_of(previous, current, path) == Some(change) {
            let k = choose|k: int| 0 <= k < files.len() && files[k] == path;
            if k < rest.len() {
                assert(rest[k] == path);
                assert(some.contains((change, path)));
                let i = choose|i: int| 0 <= i < some.len() && some[i] == (change, path);
                assert(all[i] == (change, path));
            } else {
                assert(all[all.len() - 1] == (change, path));
            }
        }
    }
}

proof fn lemma_key_listed(rows: Rows<Stamp>, path: Text)
    requires
        table::get(rows, path) is Some,
    ensures
        table::keys(rows).contains(path),
    decreases rows.len(),
{
    if rows[0].0 == path {
        assert(table::keys(rows)[0] == path);
    } else {
        let rest = rows.drop_first();
        lemma_key_listed(rest, path);
        let i = choose|i: int| 0 <= i < table::keys(rest).len() && table::keys(rest)[i] == path;
        assert(table::keys(rows)[i + 1] == path);
    }
}

/// Every file that came, went or changed is reported as just that, and no other
/// is, where no two files of the looks are the same place under two names.
pub proof fn law_changes(
    previous: Rows<Stamp>,
    current: Rows<Stamp>,
    change: Change,
    path: Text,
)
    requires
        forall|q: Text| #[trigger]
            (table::keys(current) + table::keys(previous)).contains(q) && paths::parts(q)
                == paths::parts(path) ==> q == path,
    ensures
        changes(previous, current).contains((change, path)) <==> change_of(
            previous,
            current,
            path,
        ) == Some(change),
{
    let names = table::keys(current) + table::keys(previous);
    let files = all_files(previous, current);
    paths::law_path_set(names);
    lemma_changes_at(files, previous, current, change, path);
    if change_of(previous, current, path) == Some(change) {
        if table::get(current, path) is Some {
            lemma_key_listed(current, path);
            let i = choose|i: int|
                0 <= i < table::keys(current).len() && table::keys(current)[i] == path;
            assert(names[i] == path);
        } else {
            lemma_key_listed(previous, path);
            let i = choose|i: int|
                0 <= i < table::keys(previous).len() && table::keys(previous)[i] == path;
            assert(names[table::keys(current).len() + i] == path);
        }
        let n = choose|n: int| 0 <= n < names.len() && names[n] == path;
        assert(paths::leads_there(files, names[n]));
        let k = choose|k: int|
            0 <= k < files.len() && paths::parts(#[trigger] files[k]) == paths::parts(path);
        assert(files.contains(files[k]));
        assert(names.contains(files[k]));
        assert(files[k] == path);
    }
}

/// How far a watcher is in its round.
#[derive(Debug, Clone, Copy, PartialEq, Eq, Structural)]
pub enum Phase {
    /// Between two rounds.
    Waiting,
    /// The file of the source has changed.
    Reloading,
    /// The files are to be looked at.
    Looking { reloaded: bool },
    /// Modules that have just appeared in a folder of their own are to be moved.
    Fixing { reloaded: bool, moved: bool },
    /// Some were.
    LookingAgain { reloaded: bool },
    /// The files are to be generated.
    Passing { reloaded: bool, moved: bool, just_moved: bool },
    /// The sourcemap is to be seen to.
    Keeping(Upkeep),
}

/// What a watcher needs done next.
#[derive(Debug, Clone, Copy, PartialEq, Eq, Structural)]
pub enum Task {
    /// Sleep, and take the stamp of the source's file.
    Wait,
    /// Read the source again.
    Reload,
    /// Look at the files.
    Look,
    /// Move the modules that have just appeared in a folder of their own.
    Fix,
    /// Generate.
    Pass,
    /// See to the sourcemap.
    Keep(Upkeep),
}

/// What came of a task.
pub enum Event {
    /// The stamp of the source's file.
    Stamped(Option<Stamp>),
    /// The source was read, or could not be.
    Reloaded(Result<(), String>),
    /// The files, with their stamps.
    Looked(Table<Stamp>),
    /// Whether any module was moved.
    Fixed(bool),
    /// Whether a pass changed anything, or why it failed.
    Passed(Result<bool, String>),
    /// The sourcemap was seen to.
    Kept,
}

/// What an `Event` says.
pub enum EventView {
    Stamped(Option<Stamp>),
    Reloaded(Result<(), Text>),
    Looked(Rows<Stamp>),
    Fixed(bool),
    Passed(Result<bool, Text>),
    Kept,
}

impl View for Event {
    type V = EventView;

    open spec fn view(&self) -> EventView {
        match self {
            Event::Stamped(s) => EventView::Stamped(*s),
            Event::Reloaded(Ok(_)) => EventView::Reloaded(Ok(())),
            Event::Reloaded(Err(e)) => EventView::Reloaded(Err(e@)),
            Event::Looked(t) => EventView::Looked(t@),
            Event::Fixed(b) => EventView::Fixed(*b),
            Event::Passed(Ok(b)) => EventView::Passed(Ok(*b)),
            Event::Passed(Err(e)) => EventView::Passed(Err(e@)),
            Event::Kept => EventView::Kept,
        }
    }
}

/// What a watcher has to say.
#[derive(Debug)]
pub enum Note {
    /// The source was read again.
    Reloaded,
    /// The source could not be read again.
    NotReloaded(String),
    /// What has become of a file.
    Seen(Change, String),
    /// The files were generated.
    Regenerated,
    /// A folder that was just made is not in the project file yet.
    Awaiting,
    /// The files could not be generated.
    Failed(String),
}

/// What a `Note` says.
pub enum NoteView {
    Reloaded,
    NotReloaded(Text),
    Seen(Change, Text),
    Regenerated,
    Awaiting,
    Failed(Text),
}

impl DeepView for Note {
    type V = NoteView;

    open spec fn deep_view(&self) -> NoteView {
        match self {
            Note::Reloaded => NoteView::Reloaded,
            Note::NotReloaded(e) => NoteView::NotReloaded(e@),
            Note::Seen(c, path) => NoteView::Seen(*c, path@),
            Note::Regenerated => NoteView::Regenerated,
            Note::Awaiting => NoteView::Awaiting,
            Note::Failed(e) => NoteView::Failed(e@),
        }
    }
}

/// A watcher: what it was asked to do, what it saw last, and how far it is.
pub struct Watcher {
    pub autofix: bool,
    pub nudge: bool,
    pub owned: bool,
    pub stamp: Option<Stamp>,
    pub look: Table<Stamp>,
    pub phase: Phase,
}

/// What a `Watcher` holds.
pub struct WatcherView {
    pub autofix: bool,
    pub nudge: bool,
    pub owned: bool,
    pub stamp: Option<Stamp>,
    pub look: Rows<Stamp>,
    pub phase: Phase,
}

impl View for Watcher {
    type V = WatcherView;

    open spec fn view(&self) -> WatcherView {
        WatcherView {
            autofix: self.autofix,
            nudge: self.nudge,
            owned: self.owned,
            stamp: self.stamp,
            look: self.look@,
            phase: self.phase,
        }
    }
}

/// What is to be done in a phase.
pub open spec fn task_in(phase: Phase) -> Task {
    match phase {
        Phase::Waiting => Task::Wait,
        Phase::Reloading => Task::Reload,
        Phase::Looking { .. } => Task::Look,
        Phase::Fixing { .. } => Task::Fix,
        Phase::LookingAgain { .. } => Task::Look,
        Phase::Passing { .. } => Task::Pass,
        Phase::Keeping(u) => Task::Keep(u),
    }
}

/// The phase after the sourcemap was judged.
pub open spec fn kept_by(u: Upkeep) -> Phase {
    if u == Upkeep::Leave {
        Phase::Waiting
    } else {
        Phase::Keeping(u)
    }
}

/// The changes as a watcher tells of them.
pub open spec fn sightings(changes: Seq<(Change, Text)>) -> Seq<NoteView> {
    changes.map_values(|c: (Change, Text)| NoteView::Seen(c.0, c.1))
}

/// The watcher after an event, and what it has to say of it. An event that does
/// not answer the task changes nothing.
pub open spec fn stepped(w: WatcherView, event: EventView) -> (WatcherView, Seq<NoteView>) {
    match (w.phase, event) {
        // The source is read again when the stamp of its file is another.
        (Phase::Waiting, EventView::Stamped(now)) => (
            WatcherView {
                stamp: now,
                phase: if now != w.stamp {
                    Phase::Reloading
                } else {
                    Phase::Looking { reloaded: false }
                },
                ..w
            },
            Seq::empty(),
        ),
        (Phase::Reloading, EventView::Reloaded(Ok(_))) => (
            WatcherView { phase: Phase::Looking { reloaded: true }, ..w },
            seq![NoteView::Reloaded],
        ),
        (Phase::Reloading, EventView::Reloaded(Err(e))) => (
            WatcherView { phase: Phase::Looking { reloaded: false }, ..w },
            seq![NoteView::NotReloaded(e)],
        ),
        // Where nothing changed there is nothing to do.
        (Phase::Looking { reloaded }, EventView::Looked(now)) => if now == w.look && !reloaded {
            (WatcherView { phase: Phase::Waiting, ..w }, Seq::empty())
        } else {
            let found = changes(w.look, now);
            let moved = moves_tree(found);
            (
                WatcherView {
                    look: now,
                    phase: if w.autofix {
                        Phase::Fixing { reloaded, moved }
                    } else {
                        Phase::Passing { reloaded, moved, just_moved: false }
                    },
                    ..w
                },
                sightings(found),
            )
        },
        // Modules are moved before the pass, so that it finds them where they are.
        (Phase::Fixing { reloaded, moved }, EventView::Fixed(any)) => (
            WatcherView {
                phase: if any {
                    Phase::LookingAgain { reloaded }
                } else {
                    Phase::Passing { reloaded, moved, just_moved: false }
                },
                ..w
            },
            Seq::empty(),
        ),
        // A module that was moved has moved the tree.
        (Phase::LookingAgain { reloaded }, EventView::Looked(now)) => (
            WatcherView {
                look: now,
                phase: Phase::Passing { reloaded, moved: true, just_moved: true },
                ..w
            },
            Seq::empty(),
        ),
        // The sourcemap comes after the pass: a leaf that it wrote is in the tree.
        (Phase::Passing { reloaded, moved, .. }, EventView::Passed(Ok(wrote))) => (
            WatcherView {
                phase: kept_by(upkeep_of(w.nudge, reloaded, moved, wrote, w.owned)),
                ..w
            },
            seq![NoteView::Regenerated],
        ),
        (Phase::Passing { reloaded, moved, just_moved }, EventView::Passed(Err(e))) => (
            WatcherView {
                phase: kept_by(upkeep_of(w.nudge, reloaded, moved, false, w.owned)),
                ..w
            },
            seq![
                if awaited(just_moved, e) {
                    NoteView::Awaiting
                } else {
                    NoteView::Failed(e)
                },
            ],
        ),
        (Phase::Keeping(_), EventView::Kept) => (
            WatcherView { phase: Phase::Waiting, ..w },
            Seq::empty(),
        ),
        _ => (w, Seq::empty()),
    }
}

/// The changes as a watcher tells of them.
fn seen(changes: Vec<(Change, String)>) -> (r: Vec<Note>)
    ensures
        r.deep_view() == sightings(changes.deep_view()),
{
    let ghost want = sightings(changes.deep_view());
    let mut out: Vec<Note> = Vec::new();
    let mut i: usize = 0;
    assert(out.deep_view() =~= want.take(0));
    while i < changes.len()
        invariant
            want == sightings(changes.deep_view()),
            i <= changes@.len(),
            out.deep_view() == want.take(i as int),
        decreases changes.len() - i,
    {
        let note = Note::Seen(changes[i].0, copy(changes[i].1.as_str()));
        assert(want[i as int] == note.deep_view());
        assert(want.take(i as int).push(note.deep_view()) =~= want.take(i + 1));
        text::push(&mut out, note);
        i = i + 1;
    }
    assert(want.take(i as int) =~= want);
    out
}

/// One note.
fn one(note: Note) -> (r: Vec<Note>)
    ensures
        r.deep_view() == seq![note.deep_view()],
{
    let mut out: Vec<Note> = Vec::new();
    text::push(&mut out, note);
    assert(out.deep_view() =~= seq![note.deep_view()]);
    out
}

/// No note.
fn none() -> (r: Vec<Note>)
    ensures
        r.deep_view() == Seq::<NoteView>::empty(),
{
    let out: Vec<Note> = Vec::new();
    assert(out.deep_view() =~= Seq::empty());
    out
}

impl Watcher {
    /// A watcher that has seen the source's file with this stamp, and these files.
    /// `autofix` lets it move modules, and `nudge` lets it see to the sourcemap.
    pub fn new(
        source: &Source,
        autofix: bool,
        nudge: bool,
        stamp: Option<Stamp>,
        look: Table<Stamp>,
    ) -> (r: Watcher)
        ensures
            r@ == (WatcherView {
                autofix,
                nudge,
                owned: source.deep_view() is Project,
                stamp,
                look: look@,
                phase: Phase::Waiting,
            }),
            r@ == started(source.deep_view(), autofix, nudge, stamp, look@),
    {
        Watcher {
            autofix,
            nudge,
            owned: source.owns_sourcemap(),
            stamp,
            look,
            phase: Phase::Waiting,
        }
    }

    /// What is to be done next.
    pub fn task(&self) -> (r: Task)
        ensures
            r == task_in(self@.phase),
    {
        match self.phase {
            Phase::Waiting => Task::Wait,
            Phase::Reloading => Task::Reload,
            Phase::Looking { .. } => Task::Look,
            Phase::Fixing { .. } => Task::Fix,
            Phase::LookingAgain { .. } => Task::Look,
            Phase::Passing { .. } => Task::Pass,
            Phase::Keeping(u) => Task::Keep(u),
        }
    }

    /// Goes on to the sourcemap.
    fn keep(&mut self, reloaded: bool, moved: bool, wrote: bool)
        ensures
            final(self)@ == (WatcherView {
                phase: kept_by(
                    upkeep_of(old(self)@.nudge, reloaded, moved, wrote, old(self)@.owned),
                ),
                ..old(self)@
            }),
    {
        let u = upkeep(self.nudge, reloaded, moved, wrote, self.owned);
        self.phase = if u == Upkeep::Leave {
            Phase::Waiting
        } else {
            Phase::Keeping(u)
        };
    }

    /// Takes in what came of a task, and says what there is to say of it.
    pub fn step(&mut self, event: Event) -> (r: Vec<Note>)
        ensures
            (final(self)@, r.deep_view()) == stepped(old(self)@, event@),
    {
        match (self.phase, event) {
            (Phase::Waiting, Event::Stamped(now)) => {
                let same = match (now, self.stamp) {
                    (None, None) => true,
                    (Some(a), Some(b)) => a == b,
                    _ => false,
                };
                self.stamp = now;
                self.phase = if same {
                    Phase::Looking { reloaded: false }
                } else {
                    Phase::Reloading
                };
                none()
            },
            (Phase::Reloading, Event::Reloaded(Ok(_))) => {
                self.phase = Phase::Looking { reloaded: true };
                one(Note::Reloaded)
            },
            (Phase::Reloading, Event::Reloaded(Err(e))) => {
                self.phase = Phase::Looking { reloaded: false };
                one(Note::NotReloaded(e))
            },
            (Phase::Looking { reloaded }, Event::Looked(now)) => {
                if !reloaded && unchanged(&self.look, &now) {
                    self.phase = Phase::Waiting;
                    return none();
                }
                let found = diff(&self.look, &now);
                let moved = tree_moved(&found);
                self.look = now;
                self.phase = if self.autofix {
                    Phase::Fixing { reloaded, moved }
                } else {
                    Phase::Passing { reloaded, moved, just_moved: false }
                };
                seen(found)
            },
            (Phase::Fixing { reloaded, moved }, Event::Fixed(any)) => {
                self.phase = if any {
                    Phase::LookingAgain { reloaded }
                } else {
                    Phase::Passing { reloaded, moved, just_moved: false }
                };
                none()
            },
            (Phase::LookingAgain { reloaded }, Event::Looked(now)) => {
                self.look = now;
                self.phase = Phase::Passing { reloaded, moved: true, just_moved: true };
                none()
            },
            (Phase::Passing { reloaded, moved, .. }, Event::Passed(Ok(wrote))) => {
                self.keep(reloaded, moved, wrote);
                one(Note::Regenerated)
            },
            (Phase::Passing { reloaded, moved, just_moved }, Event::Passed(Err(e))) => {
                self.keep(reloaded, moved, false);
                if is_awaited(just_moved, e.as_str()) {
                    one(Note::Awaiting)
                } else {
                    one(Note::Failed(e))
                }
            },
            (Phase::Keeping(_), Event::Kept) => {
                self.phase = Phase::Waiting;
                none()
            },
            _ => none(),
        }
    }
}

/// The watcher after all these events.
pub open spec fn watched(w: WatcherView, events: Seq<EventView>) -> WatcherView
    decreases events.len(),
{
    if events.len() == 0 {
        w
    } else {
        stepped(watched(w, events.drop_last()), events.last()).0
    }
}

/// A watcher that has just been made.
pub open spec fn started(
    source: SourceView,
    autofix: bool,
    nudge: bool,
    stamp: Option<Stamp>,
    look: Rows<Stamp>,
) -> WatcherView {
    WatcherView {
        autofix,
        nudge,
        owned: source is Project,
        stamp,
        look,
        phase: Phase::Waiting,
    }
}

/// Whatever a watcher is told, in whatever order, it makes the sourcemap again
/// only where it is asked to and the sourcemap is derived from the project file.
/// One that is not asked to never has it written; and one whose source is a
/// sourcemap never has it written but as it is.
pub proof fn law_sourcemap_is_kept(
    source: SourceView,
    autofix: bool,
    nudge: bool,
    stamp: Option<Stamp>,
    look: Rows<Stamp>,
    events: Seq<EventView>,
)
    ensures
        ({
            let task = task_in(
                watched(started(source, autofix, nudge, stamp, look), events).phase,
            );
            &&& task == Task::Keep(Upkeep::Rebuild) ==> nudge && source is Project
            &&& task is Keep ==> nudge
            &&& task is Keep && source is Sourcemap ==> task == Task::Keep(Upkeep::Touch)
        }),
{
    lemma_watched(started(source, autofix, nudge, stamp, look), events);
}

proof fn lemma_watched(w: WatcherView, events: Seq<EventView>)
    requires
        w.phase is Waiting,
    ensures
        ({
            let now = watched(w, events);
            &&& now.nudge == w.nudge && now.owned == w.owned && now.autofix == w.autofix
            &&& match now.phase {
                Phase::Keeping(u) => w.nudge && u != Upkeep::Leave && (u == Upkeep::Rebuild
                    ==> w.owned),
                _ => true,
            }
        }),
    decreases events.len(),
{
    if events.len() > 0 {
        lemma_watched(w, events.drop_last());
    }
}

/// The event answers the task of the phase.
pub open spec fn answers(event: EventView, phase: Phase) -> bool {
    match task_in(phase) {
        Task::Wait => event is Stamped,
        Task::Reload => event is Reloaded,
        Task::Look => event is Looked,
        Task::Fix => event is Fixed,
        Task::Pass => event is Passed,
        Task::Keep(_) => event is Kept,
    }
}

/// How many tasks a round has left at most.
pub open spec fn tasks_left(phase: Phase) -> nat {
    match phase {
        Phase::Waiting => 0,
        Phase::Keeping(_) => 1,
        Phase::Passing { .. } => 2,
        Phase::LookingAgain { .. } => 3,
        Phase::Fixing { .. } => 4,
        Phase::Looking { .. } => 5,
        Phase::Reloading => 6,
    }
}

/// A watcher goes on whatever happens: every answer brings it nearer to the end
/// of its round, that a reload or a pass failed as well, and from there to the
/// next. What failed is told.
pub proof fn law_watch_goes_on(w: WatcherView, event: EventView)
    requires
        answers(event, w.phase),
    ensures
        w.phase is Waiting ==> tasks_left(stepped(w, event).0.phase) > 0,
        !(w.phase is Waiting) ==> tasks_left(stepped(w, event).0.phase) < tasks_left(w.phase),
        match event {
            EventView::Reloaded(Err(e)) => stepped(w, event).1 == seq![NoteView::NotReloaded(e)],
            EventView::Passed(Err(e)) => stepped(w, event).1 == seq![NoteView::Failed(e)]
                || stepped(w, event).1 == seq![NoteView::Awaiting],
            _ => true,
        },
{
}

/// A round in which nothing changed and nothing was read again does nothing.
pub proof fn law_idle_round(w: WatcherView)
    requires
        w.phase is Waiting,
    ensures
        watched(w, seq![EventView::Stamped(w.stamp), EventView::Looked(w.look)]) == w,
{
    let events = seq![EventView::Stamped(w.stamp), EventView::Looked(w.look)];
    assert(events.drop_last() =~= seq![EventView::Stamped(w.stamp)]);
    assert(events.drop_last().drop_last() =~= Seq::empty());
    reveal_with_fuel(watched, 3);
}

} // verus!
