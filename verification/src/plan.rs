//! What a pass does to the disk, step by step.

use vstd::prelude::*;

use crate::effects::{self, Disk, Project};
use crate::emit;
use crate::layout::{self, Layout, LayoutView};
use crate::manifest::{self, Shelved};
use crate::module::{Module, ModuleView};
use crate::pass::{self, FileText};
use crate::paths;
use crate::rojo::{MapError, MapFault, RojoMap, Side};
use crate::state::Stamp;
use crate::table::{self, Rows, Table};
use crate::text::{self, copy, same, Text};

verus! {

/// What a file is.
#[derive(Debug, Clone, Copy, PartialEq, Eq, Structural)]
pub enum What {
    /// The leaf of a module that was read.
    Leaf,
    /// A leaf whose module is gone.
    Stale,
    /// The Manifest of a side.
    Manifest(Side),
    /// The module list of a side.
    List(Side),
    /// The libraries.
    Libs,
}

/// A file that is written, or removed where there is no text.
#[derive(Debug)]
pub struct Effect {
    pub what: What,
    pub file: String,
    pub text: Option<String>,
}

/// What an `Effect` holds.
pub struct EffectView {
    pub what: What,
    pub file: Text,
    pub text: Option<Text>,
}

impl DeepView for Effect {
    type V = EffectView;

    open spec fn deep_view(&self) -> EffectView {
        EffectView { what: self.what, file: self.file@, text: self.text.deep_view() }
    }
}

/// What a file holds, if it is there.
pub open spec fn look(disk: Disk, path: Text) -> Option<Text> {
    if disk.dom().contains(paths::parts(path)) {
        Some(disk[paths::parts(path)])
    } else {
        None
    }
}

/// The disk after these effects, one after the other.
pub open spec fn applied(disk: Disk, done: Seq<EffectView>) -> Disk
    decreases done.len(),
{
    if done.len() == 0 {
        disk
    } else {
        let before = applied(disk, done.drop_last());
        let place = paths::parts(done.last().file);
        match done.last().text {
            Some(t) => before.insert(place, t),
            None => before.remove(place),
        }
    }
}

/// What a file holds after these effects, given what it held before.
pub open spec fn seen(on_disk: Rows<Text>, done: Seq<EffectView>, path: Text) -> Option<Text>
    decreases done.len(),
{
    if done.len() == 0 {
        table::get(on_disk, path)
    } else if paths::parts(done.last().file) == paths::parts(path) {
        done.last().text
    } else {
        seen(on_disk, done.drop_last(), path)
    }
}

/// A step to take, or why it cannot be.
pub type Step = Result<EffectView, MapFault>;

/// What is done once these steps are taken as well, until one cannot be. A file
/// that holds its text already is not written.
pub open spec fn taken(on_disk: Rows<Text>, done: Seq<EffectView>, steps: Seq<Step>) -> (
    Seq<EffectView>,
    Option<MapFault>,
)
    decreases steps.len(),
{
    if steps.len() == 0 {
        (done, None)
    } else {
        let (now, fault) = taken(on_disk, done, steps.drop_last());
        match (fault, steps.last()) {
            (Some(f), _) => (now, Some(f)),
            (None, Err(f)) => (now, Some(f)),
            (None, Ok(e)) => if e.text is Some && seen(on_disk, now, e.file) == e.text {
                (now, None)
            } else {
                (now.push(e), None)
            },
        }
    }
}

/// The step of a file that has its text.
pub open spec fn step(what: What, made: Result<FileText, MapFault>) -> Step {
    match made {
        Ok((file, t)) => Ok(EffectView { what, file, text: Some(t) }),
        Err(f) => Err(f),
    }
}

/// The steps of the leaves of some modules.
pub open spec fn leaf_steps(
    ms: Seq<ModuleView>,
    sides: Rows<Side>,
    entries: Rows<Seq<Text>>,
    layout: LayoutView,
) -> Seq<Step> {
    ms.map_values(|m: ModuleView| step(What::Leaf, pass::leaf_entry(m, sides, entries, layout)))
}

/// The steps of the leaves that are removed.
pub open spec fn stale_steps(gone: Seq<Text>) -> Seq<Step> {
    gone.map_values(
        |file: Text| Ok::<EffectView, MapFault>(EffectView { what: What::Stale, file, text: None }),
    )
}

/// The steps of the Manifests.
pub open spec fn manifest_steps(p: Project) -> Seq<Step> {
    p.layout.targets.map_values(
        |t: (Side, Text)|
            step(
                What::Manifest(t.0),
                pass::in_file(
                    t.1,
                    manifest::manifest_of(t.0, p.modules, p.sides, p.entries, p.layout),
                ),
            ),
    )
}

/// The steps of the module lists.
pub open spec fn list_steps(p: Project) -> Seq<Step> {
    p.layout.module_lists.map_values(
        |t: (Side, Text)|
            step(
                What::List(t.0),
                pass::in_file(t.1, manifest::list_of(t.0, p.modules, p.sides, p.entries)),
            ),
    )
}

/// The step of the libraries.
pub open spec fn libs_step(p: Project) -> Step {
    step(
        What::Libs,
        pass::in_file(
            p.layout.libs_target,
            manifest::libs_of(p.root, p.layout.libs_dir, p.shelved, p.entries),
        ),
    )
}

/// The steps of the files that are no leaves.
pub open spec fn rest_steps(p: Project) -> Seq<Step> {
    manifest_steps(p) + list_steps(p) + seq![libs_step(p)]
}

/// The steps of a pass: the leaves of the modules that it read, then the leaves
/// whose module is gone, then the other files.
pub open spec fn steps(p: Project, fresh: Seq<bool>, listing: Seq<Text>) -> Seq<Step> {
    leaf_steps(pass::newly(p.modules, fresh), p.sides, p.entries, p.layout) + stale_steps(
        p.gone(listing),
    ) + rest_steps(p)
}

/// What a pass does, given what the files hold, and why it stopped if it did.
pub open spec fn planned(
    p: Project,
    fresh: Seq<bool>,
    listing: Seq<Text>,
    on_disk: Rows<Text>,
) -> (Seq<EffectView>, Option<MapFault>) {
    taken(on_disk, Seq::empty(), steps(p, fresh, listing))
}

/// What is known of the disk is what the files to be written hold.
pub open spec fn shows(on_disk: Rows<Text>, disk: Disk, steps: Seq<Step>) -> bool {
    forall|i: int|
        0 <= i < steps.len() ==> match #[trigger] steps[i] {
            Ok(e) => e.text is Some ==> table::get(on_disk, e.file) == look(disk, e.file),
            Err(_) => true,
        }
}

pub proof fn lemma_taken_cat(on_disk: Rows<Text>, done: Seq<EffectView>, a: Seq<Step>, b: Seq<Step>)
    ensures
        taken(on_disk, done, a + b) == (match taken(on_disk, done, a) {
            (now, None) => taken(on_disk, now, b),
            (now, Some(f)) => (now, Some(f)),
        }),
    decreases b.len(),
{
    if b.len() == 0 {
        assert(a + b =~= a);
    } else {
        lemma_taken_cat(on_disk, done, a, b.drop_last());
        assert((a + b).drop_last() =~= a + b.drop_last());
        assert((a + b).last() == b.last());
    }
}

proof fn lemma_taken_stays(
    on_disk: Rows<Text>,
    done: Seq<EffectView>,
    steps: Seq<Step>,
    n: int,
)
    requires
        0 <= n <= steps.len(),
        taken(on_disk, done, steps.take(n)).1 is Some,
    ensures
        taken(on_disk, done, steps) == taken(on_disk, done, steps.take(n)),
{
    lemma_taken_cat(on_disk, done, steps.take(n), steps.skip(n));
    assert(steps.take(n) + steps.skip(n) =~= steps);
}

/// What a file holds after some effects.
fn now_in(on_disk: &Table<String>, done: &Vec<Effect>, path: &str, text: &str) -> (r: bool)
    ensures
        r == (seen(on_disk@, done.deep_view(), path@) == Some(text@)),
{
    let ghost all = done.deep_view();
    let mut i: usize = done.len();
    assert(all.take(i as int) =~= all);
    while i > 0
        invariant
            all == done.deep_view(),
            i <= all.len(),
            seen(on_disk@, all, path@) == seen(on_disk@, all.take(i as int), path@),
        decreases i,
    {
        assert(all.take(i as int).drop_last() =~= all.take(i - 1));
        assert(all[i - 1] == done@[i - 1].deep_view());
        if paths::same_path(done[i - 1].file.as_str(), path) {
            return match &done[i - 1].text {
                Some(t) => same(t.as_str(), text),
                None => false,
            };
        }
        i = i - 1;
    }
    assert(all.take(0) =~= Seq::empty());
    match on_disk.get(path) {
        Some(t) => same(t.as_str(), text),
        None => false,
    }
}

/// Writes a file, unless it holds its text already.
fn put(done: &mut Vec<Effect>, on_disk: &Table<String>, what: What, file: String, text: String)
    ensures
        final(done).deep_view() == (if seen(on_disk@, old(done).deep_view(), file@) == Some(text@) {
            old(done).deep_view()
        } else {
            old(done).deep_view().push(EffectView { what, file: file@, text: Some(text@) })
        }),
{
    if !now_in(on_disk, done, file.as_str(), text.as_str()) {
        text::push(done, Effect { what, file, text: Some(text) });
    }
}

/// A fault, or none.
pub open spec fn stopped(r: Option<MapError>) -> Option<MapFault> {
    match r {
        Some(e) => Some(e.deep_view()),
        None => None,
    }
}

/// Takes the steps of the leaves.
fn take_leaves(
    done: &mut Vec<Effect>,
    on_disk: &Table<String>,
    modules: &[Module],
    fresh: &Vec<bool>,
    sides: &Table<Side>,
    map: &RojoMap,
    layout: &Layout,
) -> (r: Option<MapError>)
    requires
        manifest::covers(sides@, modules.deep_view()),
        layout.deep_view().complete(),
    ensures
        (final(done).deep_view(), stopped(r)) == taken(
            on_disk@,
            old(done).deep_view(),
            leaf_steps(
                pass::newly(modules.deep_view(), fresh@),
                sides@,
                map@,
                layout.deep_view(),
            ),
        ),
{
    let ghost all = modules.deep_view();
    let ghost lay = layout.deep_view();
    let ghost start = done.deep_view();
    let mut i: usize = 0;
    assert(leaf_steps(pass::newly(all.take(0), fresh@), sides@, map@, lay) =~= Seq::empty());
    while i < modules.len()
        invariant
            all == modules.deep_view(),
            lay == layout.deep_view(),
            lay.complete(),
            start == old(done).deep_view(),
            manifest::covers(sides@, all),
            i <= all.len(),
            taken(
                on_disk@,
                start,
                leaf_steps(pass::newly(all.take(i as int), fresh@), sides@, map@, lay),
            ) == (done.deep_view(), None::<MapFault>),
        decreases modules.len() - i,
    {
        let ghost some = pass::newly(all.take(i as int), fresh@);
        let ghost before = leaf_steps(some, sides@, map@, lay);
        assert(all.take(i + 1).drop_last() =~= all.take(i as int));
        assert(all[i as int] == modules@[i as int].deep_view());
        if i < fresh.len() && fresh[i] {
            let ghost more = leaf_steps(some.push(all[i as int]), sides@, map@, lay);
            assert(more.drop_last() =~= before);
            match pass::leaf(&modules[i], sides, map, layout) {
                Ok((file, text)) => put(done, on_disk, What::Leaf, file, text),
                Err(e) => {
                    proof {
                        let steps = leaf_steps(pass::newly(all, fresh@), sides@, map@, lay);
                        lemma_newly_grows(all, fresh@, i + 1);
                        assert(steps.take(more.len() as int) =~= more);
                        lemma_taken_stays(on_disk@, start, steps, more.len() as int);
                    }
                    return Some(e);
                },
            }
        }
        i = i + 1;
    }
    assert(all.take(i as int) =~= all);
    None
}

proof fn lemma_newly_grows(ms: Seq<ModuleView>, fresh: Seq<bool>, n: int)
    requires
        0 <= n <= ms.len(),
    ensures
        pass::newly(ms.take(n), fresh).len() <= pass::newly(ms, fresh).len(),
        pass::newly(ms, fresh).take(pass::newly(ms.take(n), fresh).len() as int) == pass::newly(
            ms.take(n),
            fresh,
        ),
    decreases ms.len() - n,
{
    let some = pass::newly(ms.take(n), fresh);
    if n < ms.len() {
        lemma_newly_grows(ms, fresh, n + 1);
        assert(ms.take(n + 1).drop_last() =~= ms.take(n));
        let more = pass::newly(ms.take(n + 1), fresh);
        let all = pass::newly(ms, fresh);
        assert(all.take(more.len() as int).take(some.len() as int) =~= all.take(some.len() as int));
        assert(more.take(some.len() as int) =~= some);
    } else {
        assert(ms.take(n) =~= ms);
        assert(some.take(some.len() as int) =~= some);
    }
}

/// Takes the steps of the leaves that are removed.
fn take_stale(done: &mut Vec<Effect>, on_disk: &Table<String>, gone: Vec<String>)
    ensures
        (final(done).deep_view(), None::<MapFault>) == taken(
            on_disk@,
            old(done).deep_view(),
            stale_steps(gone.deep_view()),
        ),
{
    let ghost all = stale_steps(gone.deep_view());
    let ghost start = done.deep_view();
    let mut i: usize = 0;
    assert(all.take(0) =~= Seq::empty());
    while i < gone.len()
        invariant
            all == stale_steps(gone.deep_view()),
            i <= gone@.len(),
            taken(on_disk@, start, all.take(i as int)) == (done.deep_view(), None::<MapFault>),
        decreases gone.len() - i,
    {
        assert(all.take(i + 1).drop_last() =~= all.take(i as int));
        let e = Effect { what: What::Stale, file: copy(gone[i].as_str()), text: None };
        assert(all[i as int] == Ok::<EffectView, MapFault>(e.deep_view()));
        text::push(done, e);
        i = i + 1;
    }
    assert(all.take(i as int) =~= all);
}

/// Takes the steps of the Manifests.
fn take_manifests(
    done: &mut Vec<Effect>,
    on_disk: &Table<String>,
    modules: &[Module],
    sides: &Table<Side>,
    map: &RojoMap,
    layout: &Layout,
    Ghost(p): Ghost<Project>,
) -> (r: Option<MapError>)
    requires
        manifest::covers(sides@, modules.deep_view()),
        layout.deep_view().complete(),
        p.modules == modules.deep_view(),
        p.sides == sides@,
        p.entries == map@,
        p.layout == layout.deep_view(),
    ensures
        (final(done).deep_view(), stopped(r)) == taken(
            on_disk@,
            old(done).deep_view(),
            manifest_steps(p),
        ),
{
    let ghost all = manifest_steps(p);
    let ghost start = done.deep_view();
    let mut i: usize = 0;
    assert(all.take(0) =~= Seq::empty());
    while i < layout.targets.len()
        invariant
            all == manifest_steps(p),
            start == old(done).deep_view(),
            manifest::covers(sides@, modules.deep_view()),
            layout.deep_view().complete(),
            p.modules == modules.deep_view(),
            p.sides == sides@,
            p.entries == map@,
            p.layout == layout.deep_view(),
            i <= layout.targets@.len(),
            taken(on_disk@, start, all.take(i as int)) == (done.deep_view(), None::<MapFault>),
        decreases layout.targets.len() - i,
    {
        assert(all.take(i + 1).drop_last() =~= all.take(i as int));
        assert(p.layout.targets[i as int] == layout.targets@[i as int].deep_view());
        let side = layout.targets[i].0;
        match manifest::emit(side, modules, sides, map, layout) {
            Ok(Some(t)) => put(
                done,
                on_disk,
                What::Manifest(side),
                copy(layout.targets[i].1.as_str()),
                t,
            ),
            Ok(None) => {},
            Err(e) => {
                proof {
                    lemma_taken_stays(on_disk@, start, all, i + 1);
                }
                return Some(e);
            },
        }
        i = i + 1;
    }
    assert(all.take(i as int) =~= all);
    None
}

/// Takes the steps of the module lists.
fn take_lists(
    done: &mut Vec<Effect>,
    on_disk: &Table<String>,
    modules: &[Module],
    sides: &Table<Side>,
    map: &RojoMap,
    layout: &Layout,
    Ghost(p): Ghost<Project>,
) -> (r: Option<MapError>)
    requires
        manifest::covers(sides@, modules.deep_view()),
        p.modules == modules.deep_view(),
        p.sides == sides@,
        p.entries == map@,
        p.layout == layout.deep_view(),
    ensures
        (final(done).deep_view(), stopped(r)) == taken(
            on_disk@,
            old(done).deep_view(),
            list_steps(p),
        ),
{
    let ghost all = list_steps(p);
    let ghost start = done.deep_view();
    let mut i: usize = 0;
    assert(all.take(0) =~= Seq::empty());
    while i < layout.module_lists.len()
        invariant
            all == list_steps(p),
            start == old(done).deep_view(),
            manifest::covers(sides@, modules.deep_view()),
            p.modules == modules.deep_view(),
            p.sides == sides@,
            p.entries == map@,
            p.layout == layout.deep_view(),
            i <= layout.module_lists@.len(),
            taken(on_disk@, start, all.take(i as int)) == (done.deep_view(), None::<MapFault>),
        decreases layout.module_lists.len() - i,
    {
        assert(all.take(i + 1).drop_last() =~= all.take(i as int));
        assert(p.layout.module_lists[i as int] == layout.module_lists@[i as int].deep_view());
        let side = layout.module_lists[i].0;
        match manifest::emit_module_list(side, modules, sides, map) {
            Ok(Some(t)) => put(
                done,
                on_disk,
                What::List(side),
                copy(layout.module_lists[i].1.as_str()),
                t,
            ),
            Ok(None) => {},
            Err(e) => {
                proof {
                    lemma_taken_stays(on_disk@, start, all, i + 1);
                }
                return Some(e);
            },
        }
        i = i + 1;
    }
    assert(all.take(i as int) =~= all);
    None
}

/// What a file holds after some effects is what is known of them.
pub proof fn lemma_seen(on_disk: Rows<Text>, disk: Disk, done: Seq<EffectView>, path: Text)
    requires
        table::get(on_disk, path) == look(disk, path),
    ensures
        seen(on_disk, done, path) == look(applied(disk, done), path),
    decreases done.len(),
{
    if done.len() > 0 {
        lemma_seen(on_disk, disk, done.drop_last(), path);
    }
}

/// The files of steps that can all be taken, with their texts.
pub open spec fn files_of(steps: Seq<Step>) -> Seq<FileText> {
    steps.map_values(|s: Step| (s->Ok_0.file, s->Ok_0.text->0))
}

/// Every step can be taken, and writes a file.
pub open spec fn all_writes(steps: Seq<Step>) -> bool {
    forall|i: int|
        0 <= i < steps.len() ==> (#[trigger] steps[i]) is Ok && steps[i]->Ok_0.text is Some
}

/// Steps that write files leave the disk with those files, and there are more
/// effects just where one of them did not hold its text.
proof fn lemma_writes(on_disk: Rows<Text>, disk: Disk, done: Seq<EffectView>, steps: Seq<Step>)
    requires
        all_writes(steps),
        shows(on_disk, disk, steps),
    ensures
        ({
            let (now, fault) = taken(on_disk, done, steps);
            &&& fault is None
            &&& applied(disk, now) == effects::with_files(applied(disk, done), files_of(steps))
            &&& now.len() >= done.len()
            &&& now.len() > done.len() <==> effects::some_differ(
                applied(disk, done),
                files_of(steps),
            )
        }),
    decreases steps.len(),
{
    let files = files_of(steps);
    if steps.len() > 0 {
        let some = steps.drop_last();
        assert forall|i: int| 0 <= i < some.len() implies (#[trigger] some[i]) is Ok
            && some[i]->Ok_0.text is Some by {
            assert(steps[i] is Ok && steps[i]->Ok_0.text is Some);
        }
        assert(shows(on_disk, disk, some)) by {
            assert forall|i: int| 0 <= i < some.len() implies match #[trigger] some[i] {
                Ok(e) => e.text is Some ==> table::get(on_disk, e.file) == look(disk, e.file),
                Err(_) => true,
            } by {
                assert(some[i] == steps[i]);
            }
        }
        lemma_writes(on_disk, disk, done, some);
        assert(files.drop_last() =~= files_of(some));
        let last = steps[steps.len() - 1];
        assert(last is Ok && last->Ok_0.text is Some);
        let e = last->Ok_0;
        let (now, _) = taken(on_disk, done, some);
        let before = applied(disk, now);
        lemma_seen(on_disk, disk, now, e.file);
        assert(files.last() == (e.file, e.text->0));
        assert(effects::holds(before, files.last()) <==> look(before, e.file) == e.text);
        if effects::holds(before, files.last()) {
            assert(before.insert(paths::parts(e.file), e.text->0) =~= before);
        } else {
            assert(now.push(e).drop_last() =~= now);
        }
    }
}

/// Steps that remove files remove them.
proof fn lemma_removals(on_disk: Rows<Text>, disk: Disk, done: Seq<EffectView>, gone: Seq<Text>)
    ensures
        ({
            let (now, fault) = taken(on_disk, done, stale_steps(gone));
            &&& fault is None
            &&& applied(disk, now) == effects::without_files(applied(disk, done), gone)
            &&& now.len() == done.len() + gone.len()
        }),
    decreases gone.len(),
{
    if gone.len() > 0 {
        let some = gone.drop_last();
        lemma_removals(on_disk, disk, done, some);
        assert(stale_steps(gone).drop_last() =~= stale_steps(some));
        let (now, _) = taken(on_disk, done, stale_steps(some));
        let e = stale_steps(gone).last()->Ok_0;
        assert(now.push(e).drop_last() =~= now);
    }
}

/// The steps of the leaves write the leaves.
proof fn lemma_leaf_files(p: Project, fresh: Seq<bool>)
    requires
        p.generation() is Ok,
    ensures
        ({
            let steps = leaf_steps(pass::newly(p.modules, fresh), p.sides, p.entries, p.layout);
            all_writes(steps) && files_of(steps) == p.leaves(fresh)
        }),
{
    let some = pass::newly(p.modules, fresh);
    let steps = leaf_steps(some, p.sides, p.entries, p.layout);
    effects::lemma_leaves_within(p, fresh);
    pass::lemma_leaf_entries(some, p.sides, p.entries, p.layout);
    let leaves = p.leaves(fresh);
    assert forall|i: int| 0 <= i < steps.len() implies (#[trigger] steps[i]) is Ok
        && steps[i]->Ok_0.text is Some by {
        assert(Ok::<FileText, MapFault>(leaves[i]) == pass::leaf_entry(
            some[i],
            p.sides,
            p.entries,
            p.layout,
        ));
    }
    assert forall|i: int| 0 <= i < steps.len() implies #[trigger] files_of(steps)[i]
        == leaves[i] by {
        assert(steps[i] is Ok);
        assert(Ok::<FileText, MapFault>(leaves[i]) == pass::leaf_entry(
            some[i],
            p.sides,
            p.entries,
            p.layout,
        ));
    }
    assert(files_of(steps) =~= leaves);
}

/// The steps of the other files write them.
proof fn lemma_rest_files(p: Project)
    requires
        p.generation() is Ok,
    ensures
        all_writes(rest_steps(p)),
        files_of(rest_steps(p)) == p.rest(),
{
    pass::law_generation(p.root, p.modules, p.sides, p.entries, p.layout, p.shelved);
    let steps = rest_steps(p);
    let n = p.modules.len() as int;
    let a = p.layout.targets.len() as int;
    let b = p.layout.module_lists.len() as int;
    let all = p.files();
    assert forall|i: int| 0 <= i < steps.len() implies (#[trigger] steps[i]) == Ok::<
        EffectView,
        MapFault,
    >(
        EffectView {
            what: steps[i]->Ok_0.what,
            file: all[n + i].0,
            text: Some(all[n + i].1),
        },
    ) by {
        if i < a {
            let t = p.layout.targets[i];
            assert(steps[i] == manifest_steps(p)[i]);
            assert(Ok::<FileText, MapFault>(all[n + i]) == pass::in_file(
                t.1,
                manifest::manifest_of(t.0, p.modules, p.sides, p.entries, p.layout),
            ));
        } else if i < a + b {
            let t = p.layout.module_lists[i - a];
            assert(steps[i] == list_steps(p)[i - a]);
            assert(Ok::<FileText, MapFault>(all[n + a + (i - a)]) == pass::in_file(
                t.1,
                manifest::list_of(t.0, p.modules, p.sides, p.entries),
            ));
        } else {
            assert(steps[i] == libs_step(p));
            assert(all[n + i] == all.last());
        }
    }
    assert(files_of(steps) =~= p.rest());
}

/// What a pass does leaves the disk as a pass leaves it, and it does something just
/// where a pass changes anything.
pub proof fn law_plan(
    p: Project,
    fresh: Seq<bool>,
    listing: Seq<Text>,
    on_disk: Rows<Text>,
    disk: Disk,
)
    requires
        p.generation() is Ok,
        shows(on_disk, disk, steps(p, fresh, listing)),
    ensures
        ({
            let (done, fault) = planned(p, fresh, listing, on_disk);
            &&& fault is None
            &&& applied(disk, done) == p.after(disk, fresh, listing)
            &&& done.len() > 0 <==> p.changes(disk, fresh, listing)
        }),
{
    let a = leaf_steps(pass::newly(p.modules, fresh), p.sides, p.entries, p.layout);
    let b = stale_steps(p.gone(listing));
    let c = rest_steps(p);
    let all = steps(p, fresh, listing);
    let none = Seq::<EffectView>::empty();
    lemma_leaf_files(p, fresh);
    lemma_rest_files(p);
    assert(shows(on_disk, disk, a)) by {
        assert forall|i: int| 0 <= i < a.len() implies match #[trigger] a[i] {
            Ok(e) => e.text is Some ==> table::get(on_disk, e.file) == look(disk, e.file),
            Err(_) => true,
        } by {
            assert(all[i] == a[i]);
        }
    }
    assert(shows(on_disk, disk, c)) by {
        assert forall|i: int| 0 <= i < c.len() implies match #[trigger] c[i] {
            Ok(e) => e.text is Some ==> table::get(on_disk, e.file) == look(disk, e.file),
            Err(_) => true,
        } by {
            assert(all[a.len() + b.len() + i] == c[i]);
        }
    }
    assert(applied(disk, none) == disk);
    lemma_writes(on_disk, disk, none, a);
    let one = taken(on_disk, none, a).0;
    lemma_removals(on_disk, disk, one, p.gone(listing));
    let two = taken(on_disk, one, b).0;
    lemma_writes(on_disk, disk, two, c);
    lemma_taken_cat(on_disk, none, a, b);
    lemma_taken_cat(on_disk, none, a + b, c);
}

/// What a pass does, in order, and why it stopped if it did.
pub struct Plan {
    pub effects: Vec<Effect>,
    pub fault: Option<MapError>,
}

/// Something is written or removed.
pub open spec fn acts(done: Seq<EffectView>) -> bool {
    done.len() > 0
}

impl Plan {
    /// Whether anything is written or removed.
    pub fn changed(&self) -> (r: bool)
        ensures
            r == (self.effects.deep_view().len() > 0),
            r == acts(self.effects.deep_view()),
    {
        self.effects.len() > 0
    }
}

/// A project, as the arguments of a plan give it.
pub open spec fn project_of(
    root: Text,
    modules: Seq<ModuleView>,
    sides: Rows<Side>,
    entries: Rows<Seq<Text>>,
    layout: LayoutView,
    shelved: Seq<(Text, Shelved)>,
) -> Project {
    Project { root, modules, sides, entries, layout, shelved }
}

/// Works out what a pass does. `fresh` marks the modules that it read, `listing` is
/// what stands in the folders of the leaves, and `on_disk` what the files hold that
/// it is about; one that it does not give is not there.
///
/// The leaves come first, so that they are there for who reads the tree before the
/// rest can be written: where a leaf has no place in the game yet, the Manifest
/// cannot be.
pub fn plan(
    root: &str,
    modules: &[Module],
    fresh: &Vec<bool>,
    sides: &Table<Side>,
    map: &RojoMap,
    layout: &Layout,
    shelved: &Vec<(String, Shelved)>,
    listing: &Vec<String>,
    on_disk: &Table<String>,
) -> (r: Plan)
    requires
        manifest::covers(sides@, modules.deep_view()),
        layout.deep_view().complete(),
    ensures
        ({
            let p = project_of(
                root@,
                modules.deep_view(),
                sides@,
                map@,
                layout.deep_view(),
                shelved.deep_view(),
            );
            let todo = steps(p, fresh@, listing.deep_view());
            &&& (r.effects.deep_view(), stopped(r.fault)) == planned(
                p,
                fresh@,
                listing.deep_view(),
                on_disk@,
            )
            &&& p.generation() is Ok ==> r.fault is None
            &&& forall|disk: Disk| #[trigger]
                shows(on_disk@, disk, todo) && p.generation() is Ok ==> applied(
                    disk,
                    r.effects.deep_view(),
                ) == p.after(disk, fresh@, listing.deep_view()) && (r.effects.deep_view().len() > 0
                    <==> p.changes(disk, fresh@, listing.deep_view()))
        }),
{
    let ghost p = project_of(
        root@,
        modules.deep_view(),
        sides@,
        map@,
        layout.deep_view(),
        shelved.deep_view(),
    );
    let ghost none = Seq::<EffectView>::empty();
    let ghost a = leaf_steps(pass::newly(p.modules, fresh@), p.sides, p.entries, p.layout);
    let ghost b = stale_steps(p.gone(listing.deep_view()));
    proof {
        assert forall|disk: Disk| #[trigger]
            shows(on_disk@, disk, steps(p, fresh@, listing.deep_view())) && p.generation() is Ok
            implies {
            let (done, fault) = planned(p, fresh@, listing.deep_view(), on_disk@);
            &&& fault is None
            &&& applied(disk, done) == p.after(disk, fresh@, listing.deep_view())
            &&& done.len() > 0 <==> p.changes(disk, fresh@, listing.deep_view())
        } by {
            law_plan(p, fresh@, listing.deep_view(), on_disk@, disk);
        }
        if p.generation() is Ok {
            lemma_no_fault(p, fresh@, listing.deep_view(), on_disk@);
        }
        lemma_taken_cat(on_disk@, none, a, b);
        lemma_taken_cat(on_disk@, none, a + b, rest_steps(p));
        let two = taken(on_disk@, none, a + b).0;
        lemma_taken_cat(on_disk@, two, manifest_steps(p), list_steps(p));
        lemma_taken_cat(on_disk@, two, manifest_steps(p) + list_steps(p), seq![libs_step(p)]);
    }
    let mut effects: Vec<Effect> = Vec::new();
    assert(effects.deep_view() =~= none);
    if let Some(e) = take_leaves(&mut effects, on_disk, modules, fresh, sides, map, layout) {
        return Plan { effects, fault: Some(e) };
    }
    let gone = pass::stale_leaves(listing, modules, sides, layout);
    take_stale(&mut effects, on_disk, gone);
    if let Some(e) = take_manifests(&mut effects, on_disk, modules, sides, map, layout, Ghost(p)) {
        return Plan { effects, fault: Some(e) };
    }
    if let Some(e) = take_lists(&mut effects, on_disk, modules, sides, map, layout, Ghost(p)) {
        return Plan { effects, fault: Some(e) };
    }
    let ghost before = effects.deep_view();
    proof {
        assert(seq![libs_step(p)].drop_last() =~= Seq::<Step>::empty());
        assert(taken(on_disk@, before, seq![libs_step(p)].drop_last()) == (
            before,
            None::<MapFault>,
        ));
    }
    match manifest::emit_libs(root, layout.libs_dir.as_str(), shelved, map) {
        Ok(t) => {
            put(&mut effects, on_disk, What::Libs, copy(layout.libs_target.as_str()), t);
            Plan { effects, fault: None }
        },
        Err(e) => Plan { effects, fault: Some(e) },
    }
}

/// Where every file can be made, no step fails.
proof fn lemma_no_fault(p: Project, fresh: Seq<bool>, listing: Seq<Text>, on_disk: Rows<Text>)
    requires
        p.generation() is Ok,
    ensures
        planned(p, fresh, listing, on_disk).1 is None,
{
    let all = steps(p, fresh, listing);
    let a = leaf_steps(pass::newly(p.modules, fresh), p.sides, p.entries, p.layout);
    let b = stale_steps(p.gone(listing));
    lemma_leaf_files(p, fresh);
    lemma_rest_files(p);
    assert forall|i: int| 0 <= i < all.len() implies #[trigger] all[i] is Ok by {
        if i < a.len() {
            assert(all[i] == a[i]);
        } else if i < a.len() + b.len() {
            assert(all[i] == b[i - a.len()]);
        } else {
            assert(all[i] == rest_steps(p)[i - a.len() - b.len()]);
        }
    }
    lemma_all_taken(on_disk, Seq::empty(), all);
}

proof fn lemma_all_taken(on_disk: Rows<Text>, done: Seq<EffectView>, steps: Seq<Step>)
    requires
        forall|i: int| 0 <= i < steps.len() ==> #[trigger] steps[i] is Ok,
    ensures
        taken(on_disk, done, steps).1 is None,
    decreases steps.len(),
{
    if steps.len() > 0 {
        let some = steps.drop_last();
        assert forall|i: int| 0 <= i < some.len() implies #[trigger] some[i] is Ok by {
            assert(steps[i] is Ok);
        }
        lemma_all_taken(on_disk, done, some);
        assert(steps[steps.len() - 1] is Ok);
    }
}

/// The files whose text decides what a pass writes: the leaves of the modules that
/// it read, and the files that are no leaves.
pub open spec fn asked_for(
    ms: Seq<ModuleView>,
    fresh: Seq<bool>,
    sides: Rows<Side>,
    layout: LayoutView,
) -> Seq<Text> {
    (pass::newly(ms, fresh).map_values(|m: ModuleView| manifest::leaf_file(layout, sides, m.id))
        + pass::second(layout.targets) + pass::second(layout.module_lists)).push(
        layout.libs_target,
    )
}

/// The files whose text decides what a pass writes.
pub fn files(modules: &[Module], fresh: &Vec<bool>, sides: &Table<Side>, layout: &Layout) -> (r: Vec<
    String,
>)
    requires
        manifest::covers(sides@, modules.deep_view()),
        layout.deep_view().complete(),
    ensures
        r.deep_view() == asked_for(modules.deep_view(), fresh@, sides@, layout.deep_view()),
{
    let ghost all = modules.deep_view();
    let ghost lay = layout.deep_view();
    let ghost leaf = |m: ModuleView| manifest::leaf_file(lay, sides@, m.id);
    let mut out: Vec<String> = Vec::new();
    let mut i: usize = 0;
    assert(out.deep_view() =~= pass::newly(all.take(0), fresh@).map_values(leaf));
    while i < modules.len()
        invariant
            all == modules.deep_view(),
            lay == layout.deep_view(),
            lay.complete(),
            manifest::covers(sides@, all),
            leaf == (|m: ModuleView| manifest::leaf_file(lay, sides@, m.id)),
            i <= all.len(),
            out.deep_view() == pass::newly(all.take(i as int), fresh@).map_values(leaf),
        decreases modules.len() - i,
    {
        let ghost some = pass::newly(all.take(i as int), fresh@);
        assert(all.take(i + 1).drop_last() =~= all.take(i as int));
        assert(all[i as int] == modules@[i as int].deep_view());
        if i < fresh.len() && fresh[i] {
            let id = modules[i].id.as_str();
            let side = *sides.get(id).unwrap();
            assert(layout::types_dir_of(lay.types_dirs, side) is Some);
            text::push(&mut out, emit::leaf_path(layout, side, id));
            assert(out.deep_view() =~= some.push(all[i as int]).map_values(leaf));
        }
        i = i + 1;
    }
    assert(all.take(i as int) =~= all);
    pass::append_paths(&mut out, &layout.targets);
    pass::append_paths(&mut out, &layout.module_lists);
    text::push(&mut out, copy(layout.libs_target.as_str()));
    assert(out.deep_view() =~= asked_for(all, fresh@, sides@, lay));
    out
}

/// To know what those files hold is to know enough for a plan.
pub proof fn law_files_are_enough(
    p: Project,
    fresh: Seq<bool>,
    listing: Seq<Text>,
    on_disk: Rows<Text>,
    disk: Disk,
)
    requires
        forall|path: Text| #[trigger]
            asked_for(p.modules, fresh, p.sides, p.layout).contains(path) ==> table::get(
                on_disk,
                path,
            ) == look(disk, path),
    ensures
        shows(on_disk, disk, steps(p, fresh, listing)),
{
    let asked = asked_for(p.modules, fresh, p.sides, p.layout);
    let some = pass::newly(p.modules, fresh);
    let a = leaf_steps(some, p.sides, p.entries, p.layout);
    let b = stale_steps(p.gone(listing));
    let m = manifest_steps(p);
    let l = list_steps(p);
    let all = steps(p, fresh, listing);
    assert forall|i: int| 0 <= i < all.len() implies match #[trigger] all[i] {
        Ok(e) => e.text is Some ==> table::get(on_disk, e.file) == look(disk, e.file),
        Err(_) => true,
    } by {
        if all[i] is Ok && all[i]->Ok_0.text is Some {
            let file = all[i]->Ok_0.file;
            let k = i - a.len() - b.len();
            if i < a.len() {
                assert(all[i] == a[i]);
                assert(asked[i] == file);
            } else if k < 0 {
                assert(all[i] == b[i - a.len()]);
            } else if k < m.len() {
                assert(all[i] == m[k]);
                assert(asked[some.len() + k] == p.layout.targets[k].1);
            } else if k < m.len() + l.len() {
                assert(all[i] == l[k - m.len()]);
                assert(asked[some.len() + k] == p.layout.module_lists[k - m.len()].1);
            } else {
                assert(all[i] == libs_step(p));
                assert(asked[asked.len() - 1] == file);
            }
            assert(asked.contains(file));
        }
    }
}

/// Once a plan was carried out, a second one over the same files is empty, whatever
/// was on the disk and in the cache before the first.
pub proof fn law_second_plan_is_empty(
    p: Project,
    disk: Disk,
    cache: Rows<(Stamp, ModuleView)>,
    found: Seq<(Text, Option<Stamp>)>,
    listing: Seq<Text>,
    on_disk: Rows<Text>,
    again: Seq<Text>,
    now_on_disk: Rows<Text>,
)
    requires
        p.ready(),
        table::sorted(cache),
        effects::found_once(found),
        effects::is_listing(listing, disk, p.layout),
        shows(on_disk, disk, steps(p, effects::fresh_in(cache, found), listing)),
        ({
            let done = applied(
                disk,
                planned(p, effects::fresh_in(cache, found), listing, on_disk).0,
            );
            let fresh = effects::fresh_in(effects::read_into(cache, found, p.modules), found);
            &&& effects::is_listing(again, done, p.layout)
            &&& shows(now_on_disk, done, steps(p, fresh, again))
        }),
    ensures
        planned(
            p,
            effects::fresh_in(effects::read_into(cache, found, p.modules), found),
            again,
            now_on_disk,
        ) == (Seq::<EffectView>::empty(), None::<MapFault>),
{
    let first = effects::fresh_in(cache, found);
    let fresh = effects::fresh_in(effects::read_into(cache, found, p.modules), found);
    law_plan(p, first, listing, on_disk, disk);
    let done = p.after(disk, first, listing);
    effects::law_second_pass_changes_nothing(p, disk, cache, found, listing, again);
    law_plan(p, fresh, again, now_on_disk, done);
    assert(planned(p, fresh, again, now_on_disk).0 =~= Seq::empty());
}

/// Once a plan was carried out that started from an empty cache, a check finds
/// nothing out of date.
pub proof fn law_check_is_clean_after_a_plan(
    p: Project,
    disk: Disk,
    found: Seq<(Text, Option<Stamp>)>,
    listing: Seq<Text>,
    on_disk: Rows<Text>,
)
    requires
        p.ready(),
        found.len() == p.modules.len(),
        shows(on_disk, disk, steps(p, effects::fresh_in(Seq::empty(), found), listing)),
    ensures
        pass::out_of_date(
            p.files(),
            effects::read_back(
                applied(
                    disk,
                    planned(p, effects::fresh_in(Seq::empty(), found), listing, on_disk).0,
                ),
                p.files(),
            ),
        ).len() == 0,
{
    law_plan(p, effects::fresh_in(Seq::empty(), found), listing, on_disk, disk);
    effects::law_check_is_clean_after_a_pass(p, disk, Seq::empty(), found, listing);
}

} // verus!
