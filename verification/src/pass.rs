//! What a pass writes, what it removes, and what it refuses.

use vstd::prelude::*;

use crate::emit::{self, leaf_path};
use crate::layout::{self, Layout, LayoutView};
use crate::manifest::{self, Shelved};
use crate::module::{Module, ModuleView};
use crate::paths;
use crate::rojo::{self, MapError, MapFault, RojoMap, Side};
use crate::scan;
use crate::table::{self, Rows, Table};
use crate::text::{self, copy, same, Text};

verus! {

/// The paths of some targets.
pub open spec fn second(list: Seq<(Side, Text)>) -> Seq<Text> {
    list.map_values(|t: (Side, Text)| t.1)
}

/// All that the generator writes: the Manifests, the module lists, the folders
/// of the leaves, the list of the libraries.
pub open spec fn written_paths(layout: LayoutView) -> Seq<Text> {
    (second(layout.targets) + second(layout.module_lists) + second(layout.types_dirs)).push(
        layout.libs_target,
    )
}

/// Appends the paths of some targets.
pub(crate) fn append_paths(out: &mut Vec<String>, list: &Vec<(Side, String)>)
    ensures
        final(out).deep_view() == old(out).deep_view() + second(list.deep_view()),
{
    let ghost was = out.deep_view();
    let ghost want = second(list.deep_view());
    let mut i: usize = 0;
    assert(was + want.take(0) =~= was);
    while i < list.len()
        invariant
            want == second(list.deep_view()),
            i <= list@.len(),
            out.deep_view() == was + want.take(i as int),
        decreases list.len() - i,
    {
        let p = copy(list[i].1.as_str());
        assert(want[i as int] == p@);
        assert((was + want.take(i as int)).push(p@) =~= was + want.take(i + 1));
        text::push(out, p);
        i = i + 1;
    }
    assert(want.take(i as int) =~= want);
}

/// All that the generator writes.
pub fn paths(layout: &Layout) -> (r: Vec<String>)
    ensures
        r.deep_view() == written_paths(layout.deep_view()),
{
    let mut all: Vec<String> = Vec::new();
    append_paths(&mut all, &layout.targets);
    append_paths(&mut all, &layout.module_lists);
    append_paths(&mut all, &layout.types_dirs);
    text::push(&mut all, copy(layout.libs_target.as_str()));
    assert(all.deep_view() =~= written_paths(layout.deep_view()));
    all
}

/// A file and what it is to hold.
pub type FileText = (Text, Text);

/// The leaf of a module, or the fault of a module without a place.
pub open spec fn leaf_entry(
    m: ModuleView,
    sides: Rows<Side>,
    entries: Rows<Seq<Text>>,
    layout: LayoutView,
) -> Result<FileText, MapFault> {
    match rojo::path_of(entries, m.file) {
        Ok(origin) => Ok((manifest::leaf_file(layout, sides, m.id), emit::leaf_text(m, origin))),
        Err(f) => Err(f),
    }
}

/// A file and its text, or the fault, as a value.
pub open spec fn entry_made(r: Result<(String, String), MapError>) -> Result<FileText, MapFault> {
    match r {
        Ok((file, text)) => Ok((file@, text@)),
        Err(e) => Err(e.deep_view()),
    }
}

/// The leaf of a module: where it goes, and what it holds.
pub fn leaf(m: &Module, sides: &Table<Side>, map: &RojoMap, layout: &Layout) -> (r: Result<
    (String, String),
    MapError,
>)
    requires
        table::get(sides@, m.id@) is Some,
        layout.deep_view().complete(),
    ensures
        entry_made(r) == leaf_entry(m.deep_view(), sides@, map@, layout.deep_view()),
{
    let side = *sides.get(m.id.as_str()).unwrap();
    assert(layout::types_dir_of(layout.deep_view().types_dirs, side) is Some);
    let file = leaf_path(layout, side, m.id.as_str());
    match map.path(m.file.as_str()) {
        Ok(origin) => Ok((file, emit::emit(m, origin.as_str()))),
        Err(e) => Err(e),
    }
}

/// Files and their texts, or the first fault: what comes before, then one more.
pub open spec fn then_one(
    some: Result<Seq<FileText>, MapFault>,
    one: Result<FileText, MapFault>,
) -> Result<Seq<FileText>, MapFault> {
    match (some, one) {
        (Ok(list), Ok(entry)) => Ok(list.push(entry)),
        (Ok(_), Err(f)) => Err(f),
        (Err(f), _) => Err(f),
    }
}

/// The leaves of some modules.
pub open spec fn leaf_entries(
    ms: Seq<ModuleView>,
    sides: Rows<Side>,
    entries: Rows<Seq<Text>>,
    layout: LayoutView,
) -> Result<Seq<FileText>, MapFault>
    decreases ms.len(),
{
    if ms.len() == 0 {
        Ok(Seq::empty())
    } else {
        then_one(
            leaf_entries(ms.drop_last(), sides, entries, layout),
            leaf_entry(ms.last(), sides, entries, layout),
        )
    }
}

/// A text in its file.
pub open spec fn in_file(file: Text, made: Result<Text, MapFault>) -> Result<FileText, MapFault> {
    match made {
        Ok(t) => Ok((file, t)),
        Err(f) => Err(f),
    }
}

/// The Manifests at some targets, after what comes before.
pub open spec fn manifest_entries(
    before: Result<Seq<FileText>, MapFault>,
    targets: Seq<(Side, Text)>,
    ms: Seq<ModuleView>,
    sides: Rows<Side>,
    entries: Rows<Seq<Text>>,
    layout: LayoutView,
) -> Result<Seq<FileText>, MapFault>
    decreases targets.len(),
{
    if targets.len() == 0 {
        before
    } else {
        then_one(
            manifest_entries(before, targets.drop_last(), ms, sides, entries, layout),
            in_file(
                targets.last().1,
                manifest::manifest_of(targets.last().0, ms, sides, entries, layout),
            ),
        )
    }
}

/// The module lists at some targets, after what comes before.
pub open spec fn list_entries(
    before: Result<Seq<FileText>, MapFault>,
    targets: Seq<(Side, Text)>,
    ms: Seq<ModuleView>,
    sides: Rows<Side>,
    entries: Rows<Seq<Text>>,
) -> Result<Seq<FileText>, MapFault>
    decreases targets.len(),
{
    if targets.len() == 0 {
        before
    } else {
        then_one(
            list_entries(before, targets.drop_last(), ms, sides, entries),
            in_file(targets.last().1, manifest::list_of(targets.last().0, ms, sides, entries)),
        )
    }
}

/// All the files of a project and what they are to hold: the leaf of every
/// module, the Manifests, the module lists, the libraries. Or the first fault.
pub open spec fn generation(
    root: Text,
    ms: Seq<ModuleView>,
    sides: Rows<Side>,
    entries: Rows<Seq<Text>>,
    layout: LayoutView,
    shelved: Seq<(Text, Shelved)>,
) -> Result<Seq<FileText>, MapFault> {
    let leaves = leaf_entries(ms, sides, entries, layout);
    let manifests = manifest_entries(leaves, layout.targets, ms, sides, entries, layout);
    let lists = list_entries(manifests, layout.module_lists, ms, sides, entries);
    then_one(
        lists,
        in_file(
            layout.libs_target,
            manifest::libs_of(root, layout.libs_dir, shelved, entries),
        ),
    )
}

/// Files and their texts, or the fault, as a value.
pub open spec fn entries_made(r: Result<Vec<(String, String)>, MapError>) -> Result<
    Seq<FileText>,
    MapFault,
> {
    match r {
        Ok(list) => Ok(list.deep_view()),
        Err(e) => Err(e.deep_view()),
    }
}

proof fn lemma_leaves_stay(
    ms: Seq<ModuleView>,
    sides: Rows<Side>,
    entries: Rows<Seq<Text>>,
    layout: LayoutView,
    n: int,
)
    requires
        0 <= n <= ms.len(),
        leaf_entries(ms.take(n), sides, entries, layout) is Err,
    ensures
        leaf_entries(ms, sides, entries, layout) == leaf_entries(
            ms.take(n),
            sides,
            entries,
            layout,
        ),
    decreases ms.len() - n,
{
    if n < ms.len() {
        assert(ms.take(n + 1).drop_last() =~= ms.take(n));
        lemma_leaves_stay(ms, sides, entries, layout, n + 1);
    } else {
        assert(ms.take(n) =~= ms);
    }
}

/// The leaves of some modules.
fn leaves(modules: &[Module], sides: &Table<Side>, map: &RojoMap, layout: &Layout) -> (r: Result<
    Vec<(String, String)>,
    MapError,
>)
    requires
        manifest::covers(sides@, modules.deep_view()),
        layout.deep_view().complete(),
    ensures
        entries_made(r) == leaf_entries(modules.deep_view(), sides@, map@, layout.deep_view()),
{
    let ghost all = modules.deep_view();
    let ghost lay = layout.deep_view();
    let mut out: Vec<(String, String)> = Vec::new();
    let mut i: usize = 0;
    assert(out.deep_view() =~= Seq::empty());
    while i < modules.len()
        invariant
            all == modules.deep_view(),
            lay == layout.deep_view(),
            lay.complete(),
            manifest::covers(sides@, all),
            i <= all.len(),
            leaf_entries(all.take(i as int), sides@, map@, lay) == Ok::<Seq<FileText>, MapFault>(
                out.deep_view(),
            ),
        decreases modules.len() - i,
    {
        assert(all.take(i + 1).drop_last() =~= all.take(i as int));
        assert(all[i as int] == modules@[i as int].deep_view());
        match leaf(&modules[i], sides, map, layout) {
            Ok(entry) => text::push(&mut out, entry),
            Err(e) => {
                proof {
                    lemma_leaves_stay(all, sides@, map@, lay, i + 1);
                }
                return Err(e);
            },
        }
        i = i + 1;
    }
    assert(all.take(i as int) =~= all);
    Ok(out)
}

/// The modules that this pass read: those marked as fresh, in order.
pub open spec fn newly(ms: Seq<ModuleView>, fresh: Seq<bool>) -> Seq<ModuleView>
    decreases ms.len(),
{
    if ms.len() == 0 {
        Seq::empty()
    } else {
        let some = newly(ms.drop_last(), fresh);
        let n = ms.len() - 1;
        if n < fresh.len() && fresh[n] {
            some.push(ms.last())
        } else {
            some
        }
    }
}

proof fn lemma_manifests_stay(
    before: Result<Seq<FileText>, MapFault>,
    targets: Seq<(Side, Text)>,
    ms: Seq<ModuleView>,
    sides: Rows<Side>,
    entries: Rows<Seq<Text>>,
    layout: LayoutView,
    n: int,
)
    requires
        0 <= n <= targets.len(),
        manifest_entries(before, targets.take(n), ms, sides, entries, layout) is Err,
    ensures
        manifest_entries(before, targets, ms, sides, entries, layout) == manifest_entries(
            before,
            targets.take(n),
            ms,
            sides,
            entries,
            layout,
        ),
    decreases targets.len() - n,
{
    if n < targets.len() {
        assert(targets.take(n + 1).drop_last() =~= targets.take(n));
        lemma_manifests_stay(before, targets, ms, sides, entries, layout, n + 1);
    } else {
        assert(targets.take(n) =~= targets);
    }
}

proof fn lemma_lists_stay(
    before: Result<Seq<FileText>, MapFault>,
    targets: Seq<(Side, Text)>,
    ms: Seq<ModuleView>,
    sides: Rows<Side>,
    entries: Rows<Seq<Text>>,
    n: int,
)
    requires
        0 <= n <= targets.len(),
        list_entries(before, targets.take(n), ms, sides, entries) is Err,
    ensures
        list_entries(before, targets, ms, sides, entries) == list_entries(
            before,
            targets.take(n),
            ms,
            sides,
            entries,
        ),
    decreases targets.len() - n,
{
    if n < targets.len() {
        assert(targets.take(n + 1).drop_last() =~= targets.take(n));
        lemma_lists_stay(before, targets, ms, sides, entries, n + 1);
    } else {
        assert(targets.take(n) =~= targets);
    }
}

/// Appends the Manifests.
fn add_manifests(
    out: &mut Vec<(String, String)>,
    modules: &[Module],
    sides: &Table<Side>,
    map: &RojoMap,
    layout: &Layout,
) -> (r: Option<MapError>)
    requires
        manifest::covers(sides@, modules.deep_view()),
        layout.deep_view().complete(),
    ensures
        manifest_entries(
            Ok(old(out).deep_view()),
            layout.deep_view().targets,
            modules.deep_view(),
            sides@,
            map@,
            layout.deep_view(),
        ) == (match r {
            Some(e) => Err(e.deep_view()),
            None => Ok(final(out).deep_view()),
        }),
{
    let ghost ms = modules.deep_view();
    let ghost lay = layout.deep_view();
    let ghost before = Ok::<Seq<FileText>, MapFault>(out.deep_view());
    let ghost all = lay.targets;
    let mut i: usize = 0;
    while i < layout.targets.len()
        invariant
            ms == modules.deep_view(),
            lay == layout.deep_view(),
            lay.complete(),
            manifest::covers(sides@, ms),
            all == lay.targets,
            before == Ok::<Seq<FileText>, MapFault>(old(out).deep_view()),
            i <= all.len(),
            manifest_entries(before, all.take(i as int), ms, sides@, map@, lay) == Ok::<
                Seq<FileText>,
                MapFault,
            >(out.deep_view()),
        decreases layout.targets.len() - i,
    {
        assert(all.take(i + 1).drop_last() =~= all.take(i as int));
        assert(all[i as int] == layout.targets@[i as int].deep_view());
        match manifest::emit(layout.targets[i].0, modules, sides, map, layout) {
            Ok(Some(t)) => text::push(out, (copy(layout.targets[i].1.as_str()), t)),
            Ok(None) => {},
            Err(e) => {
                proof {
                    lemma_manifests_stay(before, all, ms, sides@, map@, lay, i + 1);
                }
                return Some(e);
            },
        }
        i = i + 1;
    }
    assert(all.take(i as int) =~= all);
    None
}

/// Appends the module lists.
fn add_lists(
    out: &mut Vec<(String, String)>,
    modules: &[Module],
    sides: &Table<Side>,
    map: &RojoMap,
    layout: &Layout,
) -> (r: Option<MapError>)
    requires
        manifest::covers(sides@, modules.deep_view()),
    ensures
        list_entries(
            Ok(old(out).deep_view()),
            layout.deep_view().module_lists,
            modules.deep_view(),
            sides@,
            map@,
        ) == (match r {
            Some(e) => Err(e.deep_view()),
            None => Ok(final(out).deep_view()),
        }),
{
    let ghost ms = modules.deep_view();
    let ghost before = Ok::<Seq<FileText>, MapFault>(out.deep_view());
    let ghost all = layout.deep_view().module_lists;
    let mut i: usize = 0;
    while i < layout.module_lists.len()
        invariant
            ms == modules.deep_view(),
            manifest::covers(sides@, ms),
            all == layout.deep_view().module_lists,
            before == Ok::<Seq<FileText>, MapFault>(old(out).deep_view()),
            i <= all.len(),
            list_entries(before, all.take(i as int), ms, sides@, map@) == Ok::<
                Seq<FileText>,
                MapFault,
            >(out.deep_view()),
        decreases layout.module_lists.len() - i,
    {
        assert(all.take(i + 1).drop_last() =~= all.take(i as int));
        assert(all[i as int] == layout.module_lists@[i as int].deep_view());
        match manifest::emit_module_list(layout.module_lists[i].0, modules, sides, map) {
            Ok(Some(t)) => text::push(out, (copy(layout.module_lists[i].1.as_str()), t)),
            Ok(None) => {},
            Err(e) => {
                proof {
                    lemma_lists_stay(before, all, ms, sides@, map@, i + 1);
                }
                return Some(e);
            },
        }
        i = i + 1;
    }
    assert(all.take(i as int) =~= all);
    None
}

proof fn lemma_manifests_err(
    f: MapFault,
    targets: Seq<(Side, Text)>,
    ms: Seq<ModuleView>,
    sides: Rows<Side>,
    entries: Rows<Seq<Text>>,
    layout: LayoutView,
)
    ensures
        manifest_entries(Err(f), targets, ms, sides, entries, layout) == Err::<
            Seq<FileText>,
            MapFault,
        >(f),
    decreases targets.len(),
{
    if targets.len() > 0 {
        lemma_manifests_err(f, targets.drop_last(), ms, sides, entries, layout);
    }
}

proof fn lemma_lists_err(
    f: MapFault,
    targets: Seq<(Side, Text)>,
    ms: Seq<ModuleView>,
    sides: Rows<Side>,
    entries: Rows<Seq<Text>>,
)
    ensures
        list_entries(Err(f), targets, ms, sides, entries) == Err::<Seq<FileText>, MapFault>(f),
    decreases targets.len(),
{
    if targets.len() > 0 {
        lemma_lists_err(f, targets.drop_last(), ms, sides, entries);
    }
}

/// All the files of a project and what they are to hold.
pub fn expected(
    root: &str,
    modules: &[Module],
    sides: &Table<Side>,
    map: &RojoMap,
    layout: &Layout,
    shelved: &Vec<(String, Shelved)>,
) -> (r: Result<Vec<(String, String)>, MapError>)
    requires
        manifest::covers(sides@, modules.deep_view()),
        layout.deep_view().complete(),
    ensures
        entries_made(r) == generation(
            root@,
            modules.deep_view(),
            sides@,
            map@,
            layout.deep_view(),
            shelved.deep_view(),
        ),
{
    let ghost ms = modules.deep_view();
    let ghost lay = layout.deep_view();
    let mut out = match leaves(modules, sides, map, layout) {
        Ok(out) => out,
        Err(e) => {
            proof {
                lemma_manifests_err(e.deep_view(), lay.targets, ms, sides@, map@, lay);
                lemma_lists_err(e.deep_view(), lay.module_lists, ms, sides@, map@);
            }
            return Err(e);
        },
    };
    if let Some(e) = add_manifests(&mut out, modules, sides, map, layout) {
        proof {
            lemma_lists_err(e.deep_view(), lay.module_lists, ms, sides@, map@);
        }
        return Err(e);
    }
    if let Some(e) = add_lists(&mut out, modules, sides, map, layout) {
        return Err(e);
    }
    match manifest::emit_libs(root, layout.libs_dir.as_str(), shelved, map) {
        Ok(t) => {
            text::push(&mut out, (copy(layout.libs_target.as_str()), t));
            Ok(out)
        },
        Err(e) => Err(e),
    }
}

/// Whether a file does not hold this text, or is not there.
pub fn differs(on_disk: &Option<String>, expected: &str) -> (r: bool)
    ensures
        r == (on_disk.deep_view() != Some(expected@)),
{
    match on_disk {
        Some(t) => !same(t.as_str(), expected),
        None => true,
    }
}

/// The files that do not hold what they are to hold, in order. `on_disk` gives
/// what each holds; one that it does not give is not there.
pub open spec fn out_of_date(expected: Seq<FileText>, on_disk: Seq<Option<Text>>) -> Seq<Text>
    decreases expected.len(),
{
    if expected.len() == 0 {
        Seq::empty()
    } else {
        let n = expected.len() - 1;
        let some = out_of_date(expected.drop_last(), on_disk);
        if n < on_disk.len() && on_disk[n] == Some(expected[n].1) {
            some
        } else {
            some.push(expected[n].0)
        }
    }
}

/// The files that do not hold what they are to hold.
pub fn check_stale(expected: &Vec<(String, String)>, on_disk: &Vec<Option<String>>) -> (r: Vec<
    String,
>)
    ensures
        r.deep_view() == out_of_date(expected.deep_view(), on_disk.deep_view()),
{
    let ghost all = expected.deep_view();
    let ghost disk = on_disk.deep_view();
    let mut out: Vec<String> = Vec::new();
    let mut i: usize = 0;
    assert(out.deep_view() =~= Seq::empty());
    while i < expected.len()
        invariant
            all == expected.deep_view(),
            disk == on_disk.deep_view(),
            i <= all.len(),
            out.deep_view() == out_of_date(all.take(i as int), disk),
        decreases expected.len() - i,
    {
        assert(all.take(i + 1).drop_last() =~= all.take(i as int));
        assert(all[i as int] == expected@[i as int].deep_view());
        let stale = i >= on_disk.len() || differs(&on_disk[i], expected[i].1.as_str());
        if stale {
            text::push(&mut out, copy(expected[i].0.as_str()));
        }
        i = i + 1;
    }
    assert(all.take(i as int) =~= all);
    out
}

/// A folder of leaves that became the same instance as another folder: the
/// path of the instance, the folder, and a file of the other one.
#[derive(Debug)]
pub struct Collision {
    pub instance: String,
    pub dir: String,
    pub file: String,
}

/// What a `Collision` holds.
pub struct CollisionView {
    pub instance: Text,
    pub dir: Text,
    pub file: Text,
}

impl DeepView for Collision {
    type V = CollisionView;

    open spec fn deep_view(&self) -> CollisionView {
        CollisionView { instance: self.instance@, dir: self.dir@, file: self.file@ }
    }
}

/// A collision in words. The paths are given as messages show them.
pub open spec fn collision_message(dir: Text, file: Text, instance: Text) -> Text {
    dir + " e "@ + file + " viram a MESMA instancia ("@ + instance
        + ").\n  Quando duas pastas se fundem e ha nome repetido, uma some do project file sem aviso.\n  Renomeie a pasta do projeto, ou o modulo."@
}

/// A collision in words.
pub fn say_collision(dir: &str, file: &str, instance: &str) -> (r: String)
    ensures
        r@ == collision_message(dir@, file@, instance@),
{
    copy(dir).concat(" e ").concat(file).concat(" viram a MESMA instancia (").concat(
        instance,
    ).concat(
        ").\n  Quando duas pastas se fundem e ha nome repetido, uma some do project file sem aviso.\n  Renomeie a pasta do projeto, ou o modulo.",
    )
}

/// The instance that holds the leaf of a module, with the leaf's folder.
pub open spec fn leaf_home(
    m: ModuleView,
    sides: Rows<Side>,
    entries: Rows<Seq<Text>>,
    layout: LayoutView,
) -> Option<(Text, Text)> {
    let leaf = manifest::leaf_file(layout, sides, m.id);
    match (rojo::path_of(entries, leaf), paths::parent_of(leaf)) {
        (Ok(place), Some(dir)) => match text::before_last(place, '.') {
            Some(home) => Some((home, dir)),
            None => None,
        },
        _ => None,
    }
}

/// The instances that hold the leaves of some modules, each once, with a folder
/// of leaves.
pub open spec fn leaf_homes(
    ms: Seq<ModuleView>,
    sides: Rows<Side>,
    entries: Rows<Seq<Text>>,
    layout: LayoutView,
) -> Seq<(Text, Text)>
    decreases ms.len(),
{
    if ms.len() == 0 {
        Seq::empty()
    } else {
        let some = leaf_homes(ms.drop_last(), sides, entries, layout);
        match leaf_home(ms.last(), sides, entries, layout) {
            Some(home) => if table::keys(some).contains(home.0) {
                some
            } else {
                some.push(home)
            },
            None => some,
        }
    }
}

/// The first of some instances that a path in the game lies below.
pub open spec fn home_above(homes: Seq<(Text, Text)>, place: Text) -> Option<(Text, Text)>
    decreases homes.len(),
{
    if homes.len() == 0 {
        None
    } else if homes[0].0.push('.').is_prefix_of(place) {
        Some(homes[0])
    } else {
        home_above(homes.drop_first(), place)
    }
}

/// The collision that a file shows. One of code that is no leaf, below an
/// instance that holds leaves, shows that two folders became one.
pub open spec fn collision_of(
    file: Text,
    root: Text,
    homes: Seq<(Text, Text)>,
    entries: Rows<Seq<Text>>,
    layout: LayoutView,
) -> Option<CollisionView> {
    let rel = paths::relative(file, root);
    if !paths::is_luau(file) || scan::within(rel, second(layout.types_dirs)) {
        None
    } else {
        match rojo::path_of(entries, rel) {
            Ok(place) => match home_above(homes, place) {
                Some((instance, dir)) => Some(CollisionView { instance, dir, file }),
                None => None,
            },
            Err(_) => None,
        }
    }
}

/// The first collision that files show.
pub open spec fn first_collision(
    files: Seq<Text>,
    root: Text,
    homes: Seq<(Text, Text)>,
    entries: Rows<Seq<Text>>,
    layout: LayoutView,
) -> Option<CollisionView>
    decreases files.len(),
{
    if files.len() == 0 {
        None
    } else {
        match collision_of(files[0], root, homes, entries, layout) {
            Some(c) => Some(c),
            None => first_collision(files.drop_first(), root, homes, entries, layout),
        }
    }
}

/// The instance that holds the leaf of a module.
fn home_of(m: &Module, sides: &Table<Side>, map: &RojoMap, layout: &Layout) -> (r: Option<
    (String, String),
>)
    requires
        table::get(sides@, m.id@) is Some,
        layout.deep_view().complete(),
    ensures
        r.deep_view() == leaf_home(m.deep_view(), sides@, map@, layout.deep_view()),
{
    let side = *sides.get(m.id.as_str()).unwrap();
    assert(layout::types_dir_of(layout.deep_view().types_dirs, side) is Some);
    let leaf = leaf_path(layout, side, m.id.as_str());
    let Ok(place) = map.path(leaf.as_str()) else {
        return None;
    };
    let Some(home) = text::cut_last(place.as_str(), '.') else {
        return None;
    };
    let Some(dir) = paths::parent(leaf.as_str()) else {
        return None;
    };
    Some((home, dir))
}

/// Whether an instance is among those that hold leaves.
fn has_home(homes: &Vec<(String, String)>, home: &str) -> (r: bool)
    ensures
        r == table::keys(homes.deep_view()).contains(home@),
{
    let ghost names = table::keys(homes.deep_view());
    let mut i: usize = 0;
    while i < homes.len()
        invariant
            names == table::keys(homes.deep_view()),
            i <= names.len(),
            forall|j: int| 0 <= j < i ==> #[trigger] names[j] != home@,
        decreases homes.len() - i,
    {
        assert(names[i as int] == homes@[i as int].0@);
        if same(homes[i].0.as_str(), home) {
            return true;
        }
        i = i + 1;
    }
    false
}

/// The instances that hold the leaves of some modules.
fn homes_of(modules: &[Module], sides: &Table<Side>, map: &RojoMap, layout: &Layout) -> (r: Vec<
    (String, String),
>)
    requires
        manifest::covers(sides@, modules.deep_view()),
        layout.deep_view().complete(),
    ensures
        r.deep_view() == leaf_homes(modules.deep_view(), sides@, map@, layout.deep_view()),
{
    let ghost all = modules.deep_view();
    let ghost lay = layout.deep_view();
    let mut out: Vec<(String, String)> = Vec::new();
    let mut i: usize = 0;
    assert(out.deep_view() =~= Seq::empty());
    while i < modules.len()
        invariant
            all == modules.deep_view(),
            lay == layout.deep_view(),
            lay.complete(),
            manifest::covers(sides@, all),
            i <= all.len(),
            out.deep_view() == leaf_homes(all.take(i as int), sides@, map@, lay),
        decreases modules.len() - i,
    {
        assert(all.take(i + 1).drop_last() =~= all.take(i as int));
        assert(all[i as int] == modules@[i as int].deep_view());
        if let Some(home) = home_of(&modules[i], sides, map, layout) {
            if !has_home(&out, home.0.as_str()) {
                text::push(&mut out, home);
            }
        }
        i = i + 1;
    }
    assert(all.take(i as int) =~= all);
    out
}

/// The first instance that a path in the game lies below.
fn find_above(homes: &Vec<(String, String)>, place: &str) -> (r: Option<usize>)
    ensures
        match r {
            Some(i) => i < homes@.len() && home_above(homes.deep_view(), place@) == Some(
                homes@[i as int].deep_view(),
            ),
            None => home_above(homes.deep_view(), place@) is None,
        },
{
    let ghost all = homes.deep_view();
    let mut i: usize = 0;
    assert(all.skip(0) =~= all);
    while i < homes.len()
        invariant
            all == homes.deep_view(),
            i <= all.len(),
            home_above(all, place@) == home_above(all.skip(i as int), place@),
        decreases homes.len() - i,
    {
        assert(all.skip(i as int).drop_first() =~= all.skip(i + 1));
        assert(all[i as int] == homes@[i as int].deep_view());
        let mut below = copy(homes[i].0.as_str());
        below.push('.');
        if text::starts_with(place, below.as_str()) {
            return Some(i);
        }
        i = i + 1;
    }
    None
}

/// Looks for files that show that a folder of leaves and another folder became
/// the same instance.
///
/// Two folders that do are merged, and where both have a file of the same name
/// one of the two is lost. What tells of it are the other files, which are now
/// below the instance that holds the leaves.
pub fn check_leaf_collisions(
    root: &str,
    modules: &[Module],
    sides: &Table<Side>,
    map: &RojoMap,
    layout: &Layout,
    files: &Vec<String>,
) -> (r: Option<Collision>)
    requires
        manifest::covers(sides@, modules.deep_view()),
        layout.deep_view().complete(),
    ensures
        r.deep_view() == first_collision(
            files.deep_view(),
            root@,
            leaf_homes(modules.deep_view(), sides@, map@, layout.deep_view()),
            map@,
            layout.deep_view(),
        ),
{
    let ghost lay = layout.deep_view();
    let ghost all = files.deep_view();
    let homes = homes_of(modules, sides, map, layout);
    let ghost hs = homes.deep_view();
    let mut dirs: Vec<String> = Vec::new();
    append_paths(&mut dirs, &layout.types_dirs);
    assert(dirs.deep_view() =~= second(lay.types_dirs));
    let mut i: usize = 0;
    assert(all.skip(0) =~= all);
    while i < files.len()
        invariant
            lay == layout.deep_view(),
            all == files.deep_view(),
            hs == homes.deep_view(),
            hs == leaf_homes(modules.deep_view(), sides@, map@, lay),
            dirs.deep_view() == second(lay.types_dirs),
            i <= all.len(),
            first_collision(all, root@, hs, map@, lay) == first_collision(
                all.skip(i as int),
                root@,
                hs,
                map@,
                lay,
            ),
        decreases files.len() - i,
    {
        assert(all.skip(i as int).drop_first() =~= all.skip(i + 1));
        assert(all[i as int] == files@[i as int]@);
        let file = files[i].as_str();
        let rel = paths::strip_base(file, root);
        if paths::holds_luau(file) && !scan::lies_within(rel.as_str(), &dirs) {
            if let Ok(place) = map.path(rel.as_str()) {
                if let Some(h) = find_above(&homes, place.as_str()) {
                    return Some(
                        Collision {
                            instance: copy(homes[h].0.as_str()),
                            dir: copy(homes[h].1.as_str()),
                            file: copy(file),
                        },
                    );
                }
            }
        }
        i = i + 1;
    }
    None
}

/// A path leads where the leaf of one of some modules is.
pub open spec fn is_leaf_of(
    path: Text,
    ms: Seq<ModuleView>,
    sides: Rows<Side>,
    layout: LayoutView,
) -> bool {
    exists|i: int|
        0 <= i < ms.len() && paths::parts(path) == #[trigger] paths::parts(
            manifest::leaf_file(layout, sides, ms[i].id),
        )
}

/// The files of code in the folders of the leaves that are the leaf of no
/// module, in order.
pub open spec fn abandoned(
    listing: Seq<Text>,
    ms: Seq<ModuleView>,
    sides: Rows<Side>,
    layout: LayoutView,
) -> Seq<Text>
    decreases listing.len(),
{
    if listing.len() == 0 {
        Seq::empty()
    } else {
        let some = abandoned(listing.drop_last(), ms, sides, layout);
        if paths::is_luau(listing.last()) && !is_leaf_of(listing.last(), ms, sides, layout) {
            some.push(listing.last())
        } else {
            some
        }
    }
}

/// Whether a path leads where the leaf of one of some modules is.
fn leads_to_leaf(path: &str, modules: &[Module], sides: &Table<Side>, layout: &Layout) -> (r: bool)
    requires
        manifest::covers(sides@, modules.deep_view()),
        layout.deep_view().complete(),
    ensures
        r == is_leaf_of(path@, modules.deep_view(), sides@, layout.deep_view()),
{
    let ghost all = modules.deep_view();
    let ghost lay = layout.deep_view();
    let mut i: usize = 0;
    while i < modules.len()
        invariant
            all == modules.deep_view(),
            lay == layout.deep_view(),
            lay.complete(),
            manifest::covers(sides@, all),
            i <= all.len(),
            forall|j: int|
                0 <= j < i ==> paths::parts(path@) != #[trigger] paths::parts(
                    manifest::leaf_file(lay, sides@, all[j].id),
                ),
        decreases modules.len() - i,
    {
        assert(all[i as int] == modules@[i as int].deep_view());
        let id = modules[i].id.as_str();
        let side = *sides.get(id).unwrap();
        assert(layout::types_dir_of(lay.types_dirs, side) is Some);
        let leaf = leaf_path(layout, side, id);
        assert(leaf@ == manifest::leaf_file(lay, sides@, all[i as int].id));
        if paths::same_path(path, leaf.as_str()) {
            return true;
        }
        i = i + 1;
    }
    false
}

/// The leaves whose module is gone, among what stands in the folders of the
/// leaves. Such a file is still an instance of the game, and offers the type of
/// a module that is no more.
pub fn stale_leaves(
    listing: &Vec<String>,
    modules: &[Module],
    sides: &Table<Side>,
    layout: &Layout,
) -> (r: Vec<String>)
    requires
        manifest::covers(sides@, modules.deep_view()),
        layout.deep_view().complete(),
    ensures
        r.deep_view() == abandoned(
            listing.deep_view(),
            modules.deep_view(),
            sides@,
            layout.deep_view(),
        ),
{
    let ghost all = listing.deep_view();
    let ghost lay = layout.deep_view();
    let mut out: Vec<String> = Vec::new();
    let mut i: usize = 0;
    assert(out.deep_view() =~= Seq::empty());
    while i < listing.len()
        invariant
            all == listing.deep_view(),
            lay == layout.deep_view(),
            lay.complete(),
            manifest::covers(sides@, modules.deep_view()),
            i <= all.len(),
            out.deep_view() == abandoned(all.take(i as int), modules.deep_view(), sides@, lay),
        decreases listing.len() - i,
    {
        assert(all.take(i + 1).drop_last() =~= all.take(i as int));
        assert(all[i as int] == listing@[i as int]@);
        let path = listing[i].as_str();
        if paths::holds_luau(path) && !leads_to_leaf(path, modules, sides, layout) {
            text::push(&mut out, copy(path));
        }
        i = i + 1;
    }
    assert(all.take(i as int) =~= all);
    out
}

/// A module in the listing: its id and its kind in columns, its file, and what
/// it declares that it requires.
pub open spec fn list_line(m: ModuleView) -> Text {
    let deps = if m.declared_require.len() == 0 {
        "-"@
    } else {
        text::joined(m.declared_require, ", "@)
    };
    text::padded(m.id, 12) + " "@ + text::padded(m.kind, 10) + " "@ + m.file + "  deps: "@ + deps
}

/// A module in the listing.
pub fn line_of_module(m: &Module) -> (r: String)
    ensures
        r@ == list_line(m.deep_view()),
{
    let deps = if m.declared_require.len() == 0 {
        copy("-")
    } else {
        text::join(&m.declared_require, ", ")
    };
    text::pad(m.id.as_str(), 12).concat(" ").concat(
        text::pad(m.kind.as_str(), 10).as_str(),
    ).concat(" ").concat(m.file.as_str()).concat("  deps: ").concat(deps.as_str())
}

/// The texts that files are to hold.
pub open spec fn texts_of(expected: Seq<FileText>) -> Seq<Option<Text>> {
    expected.map_values(|e: FileText| Some(e.1))
}

proof fn lemma_out_of_date(expected: Seq<FileText>, on_disk: Seq<Option<Text>>)
    ensures
        out_of_date(expected, on_disk).len() == 0 <==> forall|i: int|
            0 <= i < expected.len() ==> i < on_disk.len() && #[trigger] on_disk[i] == Some(
                expected[i].1,
            ),
    decreases expected.len(),
{
    if expected.len() > 0 {
        let rest = expected.drop_last();
        lemma_out_of_date(rest, on_disk);
        let n = expected.len() - 1;
        if out_of_date(expected, on_disk).len() == 0 {
            assert forall|i: int| 0 <= i < expected.len() implies i < on_disk.len()
                && #[trigger] on_disk[i] == Some(expected[i].1) by {
                if i < n {
                    assert(rest[i] == expected[i]);
                }
            }
        }
        if forall|i: int|
            0 <= i < expected.len() ==> i < on_disk.len() && #[trigger] on_disk[i] == Some(
                expected[i].1,
            ) {
            assert(on_disk[n] == Some(expected[n].1));
            assert forall|i: int| 0 <= i < rest.len() implies i < on_disk.len()
                && #[trigger] on_disk[i] == Some(rest[i].1) by {
                assert(on_disk[i] == Some(expected[i].1));
            }
        }
    }
}

/// A check finds nothing out of date just where every file holds what it is to
/// hold.
pub proof fn law_check(expected: Seq<FileText>, on_disk: Seq<Option<Text>>)
    requires
        on_disk.len() == expected.len(),
    ensures
        out_of_date(expected, on_disk).len() == 0 <==> on_disk == texts_of(expected),
{
    lemma_out_of_date(expected, on_disk);
    if out_of_date(expected, on_disk).len() == 0 {
        assert(on_disk =~= texts_of(expected));
    } else if on_disk == texts_of(expected) {
        assert forall|i: int| 0 <= i < expected.len() implies i < on_disk.len()
            && #[trigger] on_disk[i] == Some(expected[i].1) by {
            assert(texts_of(expected)[i] == Some(expected[i].1));
        }
    }
}

/// What is removed from the folders of the leaves is code that is the leaf of
/// no module. All of that is removed, and nothing else.
pub proof fn law_sweep(
    listing: Seq<Text>,
    ms: Seq<ModuleView>,
    sides: Rows<Side>,
    layout: LayoutView,
    path: Text,
)
    ensures
        abandoned(listing, ms, sides, layout).contains(path) <==> (listing.contains(path)
            && paths::is_luau(path) && !is_leaf_of(path, ms, sides, layout)),
    decreases listing.len(),
{
    if listing.len() > 0 {
        let rest = listing.drop_last();
        law_sweep(rest, ms, sides, layout, path);
        let some = abandoned(rest, ms, sides, layout);
        let all = abandoned(listing, ms, sides, layout);
        if all.contains(path) {
            let i = choose|i: int| 0 <= i < all.len() && all[i] == path;
            if i < some.len() {
                assert(some[i] == path);
                assert(some.contains(path));
                let k = choose|k: int| 0 <= k < rest.len() && rest[k] == path;
                assert(listing[k] == path);
            } else {
                assert(listing[listing.len() - 1] == path);
            }
        }
        if listing.contains(path) && paths::is_luau(path) && !is_leaf_of(path, ms, sides, layout) {
            let k = choose|k: int| 0 <= k < listing.len() && listing[k] == path;
            if k < rest.len() {
                assert(rest[k] == path);
                assert(some.contains(path));
                let i = choose|i: int| 0 <= i < some.len() && some[i] == path;
                assert(all[i] == path);
            } else {
                assert(all[all.len() - 1] == path);
            }
        }
    }
}

/// The leaf of a module is never swept away.
pub proof fn law_sweep_spares_leaves(
    listing: Seq<Text>,
    ms: Seq<ModuleView>,
    sides: Rows<Side>,
    layout: LayoutView,
    i: int,
)
    requires
        0 <= i < ms.len(),
    ensures
        !abandoned(listing, ms, sides, layout).contains(
            manifest::leaf_file(layout, sides, ms[i].id),
        ),
{
    let leaf = manifest::leaf_file(layout, sides, ms[i].id);
    law_sweep(listing, ms, sides, layout, leaf);
    assert(paths::parts(leaf) == paths::parts(manifest::leaf_file(layout, sides, ms[i].id)));
}

/// The leaf of a module counts as written by the generator, so that it is never
/// taken for a module.
pub proof fn law_leaves_are_generated(layout: LayoutView, side: Side, id: Text)
    requires
        layout.complete(),
        id.len() == 0 || id[0] != '/',
    ensures
        scan::within(emit::leaf_of(layout, side, id)->0, written_paths(layout)),
{
    reveal_strlit(".luau");
    let dirs = layout.types_dirs;
    lemma_types_dir_listed(dirs, side);
    let dir = layout::types_dir_of(dirs, side)->0;
    let i = choose|i: int| 0 <= i < dirs.len() && dirs[i] == (side, dir);
    paths::law_join_is_under(dir, id + ".luau"@);
    let all = written_paths(layout);
    let before = (second(layout.targets) + second(layout.module_lists)).len();
    assert(second(dirs)[i] == dir);
    assert(all[before + i] == dir);
    assert(paths::under(emit::leaf_of(layout, side, id)->0, all[before + i]));
}

proof fn lemma_types_dir_listed(dirs: Seq<(Side, Text)>, side: Side)
    requires
        layout::types_dir_of(dirs, side) is Some,
    ensures
        dirs.contains((side, layout::types_dir_of(dirs, side)->0)),
    decreases dirs.len(),
{
    if dirs[0].0 == side {
        assert(dirs[0] == (side, layout::types_dir_of(dirs, side)->0));
    } else {
        let rest = dirs.drop_first();
        lemma_types_dir_listed(rest, side);
        let i = choose|i: int|
            0 <= i < rest.len() && rest[i] == (side, layout::types_dir_of(rest, side)->0);
        assert(dirs[i + 1] == rest[i]);
    }
}

/// The leaves of some modules are those of each of them.
pub proof fn lemma_leaf_entries(
    ms: Seq<ModuleView>,
    sides: Rows<Side>,
    entries: Rows<Seq<Text>>,
    layout: LayoutView,
)
    requires
        leaf_entries(ms, sides, entries, layout) is Ok,
    ensures
        leaf_entries(ms, sides, entries, layout)->Ok_0.len() == ms.len(),
        forall|i: int|
            0 <= i < ms.len() ==> Ok::<FileText, MapFault>(
                #[trigger] leaf_entries(ms, sides, entries, layout)->Ok_0[i],
            ) == leaf_entry(ms[i], sides, entries, layout),
    decreases ms.len(),
{
    if ms.len() > 0 {
        lemma_leaf_entries(ms.drop_last(), sides, entries, layout);
    }
}

proof fn lemma_manifest_entries(
    before: Result<Seq<FileText>, MapFault>,
    targets: Seq<(Side, Text)>,
    ms: Seq<ModuleView>,
    sides: Rows<Side>,
    entries: Rows<Seq<Text>>,
    layout: LayoutView,
)
    requires
        manifest_entries(before, targets, ms, sides, entries, layout) is Ok,
    ensures
        before is Ok,
        ({
            let list = manifest_entries(before, targets, ms, sides, entries, layout)->Ok_0;
            &&& list.len() == before->Ok_0.len() + targets.len()
            &&& list.take(before->Ok_0.len() as int) == before->Ok_0
            &&& forall|i: int|
                0 <= i < targets.len() ==> Ok::<FileText, MapFault>(
                    list[before->Ok_0.len() + i],
                ) == in_file(
                    (#[trigger] targets[i]).1,
                    manifest::manifest_of(targets[i].0, ms, sides, entries, layout),
                )
        }),
    decreases targets.len(),
{
    let n = before->Ok_0.len() as int;
    let list = manifest_entries(before, targets, ms, sides, entries, layout)->Ok_0;
    if targets.len() > 0 {
        lemma_manifest_entries(before, targets.drop_last(), ms, sides, entries, layout);
        let some = manifest_entries(before, targets.drop_last(), ms, sides, entries, layout)->Ok_0;
        assert(list.take(n) =~= some.take(n));
        assert forall|i: int| 0 <= i < targets.len() implies Ok::<FileText, MapFault>(
            list[n + i],
        ) == in_file(
            (#[trigger] targets[i]).1,
            manifest::manifest_of(targets[i].0, ms, sides, entries, layout),
        ) by {
            if i < targets.len() - 1 {
                assert(targets.drop_last()[i] == targets[i]);
                assert(list[n + i] == some[n + i]);
            }
        }
    } else {
        assert(list.take(n) =~= list);
    }
}

proof fn lemma_list_entries(
    before: Result<Seq<FileText>, MapFault>,
    targets: Seq<(Side, Text)>,
    ms: Seq<ModuleView>,
    sides: Rows<Side>,
    entries: Rows<Seq<Text>>,
)
    requires
        list_entries(before, targets, ms, sides, entries) is Ok,
    ensures
        before is Ok,
        ({
            let list = list_entries(before, targets, ms, sides, entries)->Ok_0;
            &&& list.len() == before->Ok_0.len() + targets.len()
            &&& list.take(before->Ok_0.len() as int) == before->Ok_0
            &&& forall|i: int|
                0 <= i < targets.len() ==> Ok::<FileText, MapFault>(
                    list[before->Ok_0.len() + i],
                ) == in_file(
                    (#[trigger] targets[i]).1,
                    manifest::list_of(targets[i].0, ms, sides, entries),
                )
        }),
    decreases targets.len(),
{
    let n = before->Ok_0.len() as int;
    let list = list_entries(before, targets, ms, sides, entries)->Ok_0;
    if targets.len() > 0 {
        lemma_list_entries(before, targets.drop_last(), ms, sides, entries);
        let some = list_entries(before, targets.drop_last(), ms, sides, entries)->Ok_0;
        assert(list.take(n) =~= some.take(n));
        assert forall|i: int| 0 <= i < targets.len() implies Ok::<FileText, MapFault>(
            list[n + i],
        ) == in_file(
            (#[trigger] targets[i]).1,
            manifest::list_of(targets[i].0, ms, sides, entries),
        ) by {
            if i < targets.len() - 1 {
                assert(targets.drop_last()[i] == targets[i]);
                assert(list[n + i] == some[n + i]);
            }
        }
    } else {
        assert(list.take(n) =~= list);
    }
}

/// What a check holds against the disk is what a pass writes: the leaf of every
/// module, the Manifest and the module list of every side that has one, and the
/// libraries.
pub proof fn law_generation(
    root: Text,
    ms: Seq<ModuleView>,
    sides: Rows<Side>,
    entries: Rows<Seq<Text>>,
    layout: LayoutView,
    shelved: Seq<(Text, Shelved)>,
)
    requires
        generation(root, ms, sides, entries, layout, shelved) is Ok,
    ensures
        generation(root, ms, sides, entries, layout, shelved)->Ok_0.len() == ms.len()
            + layout.targets.len() + layout.module_lists.len() + 1,
        forall|i: int|
            0 <= i < ms.len() ==> Ok::<FileText, MapFault>(
                #[trigger] generation(root, ms, sides, entries, layout, shelved)->Ok_0[i],
            ) == leaf_entry(ms[i], sides, entries, layout),
        forall|i: int|
            0 <= i < layout.targets.len() ==> Ok::<FileText, MapFault>(
                generation(root, ms, sides, entries, layout, shelved)->Ok_0[ms.len() + i],
            ) == in_file(
                (#[trigger] layout.targets[i]).1,
                manifest::manifest_of(layout.targets[i].0, ms, sides, entries, layout),
            ),
        forall|i: int|
            0 <= i < layout.module_lists.len() ==> Ok::<FileText, MapFault>(
                generation(root, ms, sides, entries, layout, shelved)->Ok_0[ms.len()
                    + layout.targets.len() + i],
            ) == in_file(
                (#[trigger] layout.module_lists[i]).1,
                manifest::list_of(layout.module_lists[i].0, ms, sides, entries),
            ),
        Ok::<FileText, MapFault>(
            generation(root, ms, sides, entries, layout, shelved)->Ok_0.last(),
        ) == in_file(
            layout.libs_target,
            manifest::libs_of(root, layout.libs_dir, shelved, entries),
        ),
{
    let leaves = leaf_entries(ms, sides, entries, layout);
    let manifests = manifest_entries(leaves, layout.targets, ms, sides, entries, layout);
    let lists = list_entries(manifests, layout.module_lists, ms, sides, entries);
    let all = generation(root, ms, sides, entries, layout, shelved)->Ok_0;
    lemma_list_entries(manifests, layout.module_lists, ms, sides, entries);
    lemma_manifest_entries(leaves, layout.targets, ms, sides, entries, layout);
    lemma_leaf_entries(ms, sides, entries, layout);
    let n = ms.len() as int;
    let m = n + layout.targets.len();
    assert forall|i: int| 0 <= i < layout.targets.len() implies all[n + i]
        == #[trigger] manifests->Ok_0[n + i] by {
        assert(lists->Ok_0.take(m)[n + i] == manifests->Ok_0[n + i]);
    }
    assert forall|i: int| 0 <= i < layout.targets.len() implies Ok::<FileText, MapFault>(
        all[n + i],
    ) == in_file(
        (#[trigger] layout.targets[i]).1,
        manifest::manifest_of(layout.targets[i].0, ms, sides, entries, layout),
    ) by {
        assert(all[n + i] == manifests->Ok_0[n + i]);
    }
    assert forall|i: int| 0 <= i < layout.module_lists.len() implies Ok::<FileText, MapFault>(
        all[m + i],
    ) == in_file(
        (#[trigger] layout.module_lists[i]).1,
        manifest::list_of(layout.module_lists[i].0, ms, sides, entries),
    ) by {
        assert(all[m + i] == lists->Ok_0[m + i]);
    }
    assert forall|i: int| 0 <= i < n implies #[trigger] all[i] == leaves->Ok_0[i] by {
        assert(lists->Ok_0.take(manifests->Ok_0.len() as int)[i] == manifests->Ok_0[i]);
        assert(manifests->Ok_0.take(n)[i] == leaves->Ok_0[i]);
    }
}

} // verus!
