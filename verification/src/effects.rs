//! What passes do to the disk, one after the other.

use vstd::prelude::*;

use crate::layout::{self, LayoutView};
use crate::manifest::{self, ManifestFault, Shelved};
use crate::module::ModuleView;
use crate::pass::{self, FileText};
use crate::paths::{self, PartView};
use crate::rojo::{MapFault, Side};
use crate::state::{self, Stamp};
use crate::table::{self, Rows};
use crate::text::{self, Text};

verus! {

/// What files hold, by place. Two paths to one place are one file.
pub type Disk = Map<Seq<PartView>, Text>;

/// The disk once these files were written, one after the other.
pub open spec fn with_files(disk: Disk, files: Seq<FileText>) -> Disk
    decreases files.len(),
{
    if files.len() == 0 {
        disk
    } else {
        with_files(disk, files.drop_last()).insert(paths::parts(files.last().0), files.last().1)
    }
}

/// The disk once these files were removed.
pub open spec fn without_files(disk: Disk, gone: Seq<Text>) -> Disk
    decreases gone.len(),
{
    if gone.len() == 0 {
        disk
    } else {
        without_files(disk, gone.drop_last()).remove(paths::parts(gone.last()))
    }
}

/// The file is there and holds its text.
pub open spec fn holds(disk: Disk, entry: FileText) -> bool {
    disk.dom().contains(paths::parts(entry.0)) && disk[paths::parts(entry.0)] == entry.1
}

/// Whether one of these files, written one after the other, did not hold its text
/// before. Such a file is written, and no other.
pub open spec fn some_differ(disk: Disk, files: Seq<FileText>) -> bool
    decreases files.len(),
{
    files.len() > 0 && {
        ||| some_differ(disk, files.drop_last())
        ||| !holds(with_files(disk, files.drop_last()), files.last())
    }
}

/// The disk after a pass: the leaves are written, the abandoned ones removed, the
/// other files written.
pub open spec fn after(
    disk: Disk,
    leaves: Seq<FileText>,
    gone: Seq<Text>,
    rest: Seq<FileText>,
) -> Disk {
    with_files(without_files(with_files(disk, leaves), gone), rest)
}

/// Whether a pass writes or removes anything.
pub open spec fn changes(
    disk: Disk,
    leaves: Seq<FileText>,
    gone: Seq<Text>,
    rest: Seq<FileText>,
) -> bool {
    ||| some_differ(disk, leaves)
    ||| gone.len() > 0
    ||| some_differ(without_files(with_files(disk, leaves), gone), rest)
}

/// The place is a file in one of the folders of the leaves.
pub open spec fn in_leaf_folder(place: Seq<PartView>, layout: LayoutView) -> bool {
    place.len() > 0 && exists|i: int|
        0 <= i < layout.types_dirs.len() && place.drop_last() == paths::parts(
            #[trigger] layout.types_dirs[i].1,
        )
}

/// A listing of the folders of the leaves: what it names is there, and it names
/// every file that is.
pub open spec fn is_listing(listing: Seq<Text>, disk: Disk, layout: LayoutView) -> bool {
    &&& forall|path: Text| #[trigger]
        listing.contains(path) ==> disk.dom().contains(paths::parts(path)) && in_leaf_folder(
            paths::parts(path),
            layout,
        )
    &&& forall|place: Seq<PartView>| #[trigger]
        disk.dom().contains(place) && in_leaf_folder(place, layout) ==> exists|i: int|
            0 <= i < listing.len() && place == paths::parts(#[trigger] listing[i])
}

/// No two files are in the same place.
pub open spec fn all_apart(files: Seq<FileText>) -> bool {
    forall|i: int, j: int|
        #![trigger files[i], files[j]]
        0 <= i < j < files.len() ==> paths::parts(files[i].0) != paths::parts(files[j].0)
}

/// Of the files of a project, the first `n` of which are leaves, none is in
/// another's place, and none but a leaf is in a folder of the leaves.
pub open spec fn well_placed(files: Seq<FileText>, n: int, layout: LayoutView) -> bool {
    &&& all_apart(files)
    &&& forall|i: int|
        n <= i < files.len() ==> !in_leaf_folder(paths::parts((#[trigger] files[i]).0), layout)
}

/// Each of some files is among others.
pub open spec fn within(some: Seq<FileText>, all: Seq<FileText>) -> bool {
    forall|i: int| 0 <= i < some.len() ==> all.contains(#[trigger] some[i])
}

/// What is written holds its text, also where it is written beside files that
/// are all apart.
proof fn lemma_written(disk: Disk, files: Seq<FileText>, all: Seq<FileText>, entry: FileText)
    requires
        all_apart(all),
        within(files, all),
        all.contains(entry),
        files.contains(entry) || holds(disk, entry),
    ensures
        holds(with_files(disk, files), entry),
    decreases files.len(),
{
    if files.len() > 0 {
        let some = files.drop_last();
        let last = files.last();
        assert(all.contains(files[files.len() - 1]));
        assert forall|i: int| 0 <= i < some.len() implies all.contains(#[trigger] some[i]) by {
            assert(all.contains(files[i]));
        }
        if paths::parts(last.0) == paths::parts(entry.0) {
            let i = choose|i: int| 0 <= i < all.len() && all[i] == last;
            let j = choose|j: int| 0 <= j < all.len() && all[j] == entry;
            if i < j {
                assert(paths::parts(all[i].0) != paths::parts(all[j].0));
            }
            if j < i {
                assert(paths::parts(all[j].0) != paths::parts(all[i].0));
            }
            assert(last == entry);
        } else {
            if files.contains(entry) {
                let k = choose|k: int| 0 <= k < files.len() && files[k] == entry;
                assert(some[k] == entry);
            }
            lemma_written(disk, some, all, entry);
        }
    }
}

/// Writing adds no place but those of the files.
proof fn lemma_written_places(disk: Disk, files: Seq<FileText>, place: Seq<PartView>)
    ensures
        with_files(disk, files).dom().contains(place) <==> disk.dom().contains(place) || exists|
            i: int,
        |
            0 <= i < files.len() && place == paths::parts((#[trigger] files[i]).0),
    decreases files.len(),
{
    if files.len() > 0 {
        let some = files.drop_last();
        lemma_written_places(disk, some, place);
        if exists|i: int| 0 <= i < some.len() && place == paths::parts((#[trigger] some[i]).0) {
            let i = choose|i: int|
                0 <= i < some.len() && place == paths::parts((#[trigger] some[i]).0);
            assert(files[i] == some[i]);
        }
        assert(files[files.len() - 1] == files.last());
        if exists|i: int| 0 <= i < files.len() && place == paths::parts((#[trigger] files[i]).0) {
            let i = choose|i: int|
                0 <= i < files.len() && place == paths::parts((#[trigger] files[i]).0);
            if i < some.len() {
                assert(some[i] == files[i]);
            }
        }
    }
}

/// Files that hold their text are not written, and the disk stays as it is.
proof fn lemma_nothing_differs(disk: Disk, files: Seq<FileText>)
    requires
        forall|i: int| 0 <= i < files.len() ==> holds(disk, #[trigger] files[i]),
    ensures
        !some_differ(disk, files),
        with_files(disk, files) == disk,
    decreases files.len(),
{
    if files.len() > 0 {
        let some = files.drop_last();
        assert forall|i: int| 0 <= i < some.len() implies holds(disk, #[trigger] some[i]) by {
            assert(holds(disk, files[i]));
        }
        lemma_nothing_differs(disk, some);
        assert(holds(disk, files[files.len() - 1]));
        assert(with_files(disk, files) =~= disk);
    }
}

/// Removing takes away what is named, and nothing else.
proof fn lemma_removed(disk: Disk, gone: Seq<Text>, place: Seq<PartView>)
    ensures
        without_files(disk, gone).dom().contains(place) <==> disk.dom().contains(place) && forall|
            i: int,
        |
            0 <= i < gone.len() ==> place != paths::parts(#[trigger] gone[i]),
        without_files(disk, gone).dom().contains(place) ==> without_files(disk, gone)[place]
            == disk[place],
    decreases gone.len(),
{
    if gone.len() > 0 {
        let some = gone.drop_last();
        lemma_removed(disk, some, place);
        assert(gone[gone.len() - 1] == gone.last());
        if forall|i: int| 0 <= i < gone.len() ==> place != paths::parts(#[trigger] gone[i]) {
            assert forall|i: int| 0 <= i < some.len() implies place != paths::parts(
                #[trigger] some[i],
            ) by {
                assert(gone[i] == some[i]);
            }
        }
        if forall|i: int| 0 <= i < some.len() ==> place != paths::parts(#[trigger] some[i]) {
            assert forall|i: int| 0 <= i < gone.len() - 1 implies place != paths::parts(
                #[trigger] gone[i],
            ) by {
                assert(gone[i] == some[i]);
            }
        }
    }
}

/// Whether a path is the leaf of a module, and whether it is code, is told by the
/// place.
proof fn lemma_same_place(
    a: Text,
    b: Text,
    ms: Seq<ModuleView>,
    sides: Rows<Side>,
    layout: LayoutView,
)
    requires
        paths::parts(a) == paths::parts(b),
    ensures
        pass::is_leaf_of(a, ms, sides, layout) == pass::is_leaf_of(b, ms, sides, layout),
        paths::is_luau(a) == paths::is_luau(b),
{
}

/// The leaves of the modules that a pass read are just the leaves of the modules
/// that are marked as fresh.
proof fn lemma_newly(ms: Seq<ModuleView>, fresh: Seq<bool>, m: ModuleView)
    ensures
        pass::newly(ms, fresh).contains(m) <==> exists|i: int|
            0 <= i < ms.len() && i < fresh.len() && fresh[i] && #[trigger] ms[i] == m,
    decreases ms.len(),
{
    if ms.len() > 0 {
        let some = ms.drop_last();
        lemma_newly(some, fresh, m);
        let before = pass::newly(some, fresh);
        let all = pass::newly(ms, fresh);
        if all.contains(m) {
            let k = choose|k: int| 0 <= k < all.len() && all[k] == m;
            if k < before.len() {
                assert(before[k] == m);
                assert(before.contains(m));
                let i = choose|i: int|
                    0 <= i < some.len() && i < fresh.len() && fresh[i] && #[trigger] some[i] == m;
                assert(ms[i] == m);
            } else {
                assert(ms[ms.len() - 1] == m);
            }
        }
        if exists|i: int|
            0 <= i < ms.len() && i < fresh.len() && fresh[i] && #[trigger] ms[i] == m {
            let i = choose|i: int|
                0 <= i < ms.len() && i < fresh.len() && fresh[i] && #[trigger] ms[i] == m;
            if i < some.len() {
                assert(some[i] == m);
                assert(before.contains(m));
                let k = choose|k: int| 0 <= k < before.len() && before[k] == m;
                assert(all[k] == m);
            } else {
                assert(all[all.len() - 1] == m);
            }
        }
    }
}

/// The leaves of modules that each have one.
proof fn lemma_leaves_made(
    ms: Seq<ModuleView>,
    sides: Rows<Side>,
    entries: Rows<Seq<Text>>,
    layout: LayoutView,
)
    requires
        forall|i: int|
            0 <= i < ms.len() ==> pass::leaf_entry(#[trigger] ms[i], sides, entries, layout) is Ok,
    ensures
        pass::leaf_entries(ms, sides, entries, layout) is Ok,
    decreases ms.len(),
{
    if ms.len() > 0 {
        let some = ms.drop_last();
        assert forall|i: int| 0 <= i < some.len() implies pass::leaf_entry(
            #[trigger] some[i],
            sides,
            entries,
            layout,
        ) is Ok by {
            assert(pass::leaf_entry(ms[i], sides, entries, layout) is Ok);
        }
        lemma_leaves_made(some, sides, entries, layout);
        assert(pass::leaf_entry(ms[ms.len() - 1], sides, entries, layout) is Ok);
    }
}

/// In modules that go together every one has its leaf: a pass that got this far
/// does not fail between two leaves.
pub proof fn law_every_module_has_its_leaf(
    ms: Seq<ModuleView>,
    fresh: Seq<bool>,
    entries: Rows<Seq<Text>>,
    layout: LayoutView,
)
    requires
        manifest::validated(ms, entries) is Ok,
    ensures
        pass::leaf_entries(
            pass::newly(ms, fresh),
            manifest::validated(ms, entries)->Ok_0,
            entries,
            layout,
        ) is Ok,
{
    let sides = manifest::validated(ms, entries)->Ok_0;
    let some = pass::newly(ms, fresh);
    assert forall|k: int| 0 <= k < some.len() implies pass::leaf_entry(
        #[trigger] some[k],
        sides,
        entries,
        layout,
    ) is Ok by {
        assert(some.contains(some[k]));
        lemma_newly(ms, fresh, some[k]);
        let i = choose|i: int|
            0 <= i < ms.len() && i < fresh.len() && fresh[i] && #[trigger] ms[i] == some[k];
        manifest::law_sides(ms, entries, i);
    }
    lemma_leaves_made(some, sides, entries, layout);
}

/// A pass writes the leaves of the modules that it read, and no other leaf.
pub proof fn law_only_new_leaves_are_written(
    ms: Seq<ModuleView>,
    fresh: Seq<bool>,
    sides: Rows<Side>,
    entries: Rows<Seq<Text>>,
    layout: LayoutView,
    entry: FileText,
)
    requires
        pass::leaf_entries(pass::newly(ms, fresh), sides, entries, layout) is Ok,
    ensures
        pass::leaf_entries(pass::newly(ms, fresh), sides, entries, layout)->Ok_0.contains(entry)
            <==> exists|i: int|
            0 <= i < ms.len() && i < fresh.len() && fresh[i] && pass::leaf_entry(
                #[trigger] ms[i],
                sides,
                entries,
                layout,
            ) == Ok::<FileText, MapFault>(entry),
{
    let some = pass::newly(ms, fresh);
    let leaves = pass::leaf_entries(some, sides, entries, layout)->Ok_0;
    pass::lemma_leaf_entries(some, sides, entries, layout);
    if leaves.contains(entry) {
        let k = choose|k: int| 0 <= k < leaves.len() && leaves[k] == entry;
        assert(some.contains(some[k]));
        lemma_newly(ms, fresh, some[k]);
        let i = choose|i: int|
            0 <= i < ms.len() && i < fresh.len() && fresh[i] && #[trigger] ms[i] == some[k];
        assert(Ok::<FileText, MapFault>(leaves[k]) == pass::leaf_entry(
            ms[i],
            sides,
            entries,
            layout,
        ));
    }
    if exists|i: int|
        0 <= i < ms.len() && i < fresh.len() && fresh[i] && pass::leaf_entry(
            #[trigger] ms[i],
            sides,
            entries,
            layout,
        ) == Ok::<FileText, MapFault>(entry) {
        let i = choose|i: int|
            0 <= i < ms.len() && i < fresh.len() && fresh[i] && pass::leaf_entry(
                #[trigger] ms[i],
                sides,
                entries,
                layout,
            ) == Ok::<FileText, MapFault>(entry);
        lemma_newly(ms, fresh, ms[i]);
        let k = choose|k: int| 0 <= k < some.len() && some[k] == ms[i];
        assert(Ok::<FileText, MapFault>(leaves[k]) == pass::leaf_entry(
            some[k],
            sides,
            entries,
            layout,
        ));
        assert(leaves[k] == entry);
    }
}

/// All that a project's files are made from.
pub struct Project {
    pub root: Text,
    pub modules: Seq<ModuleView>,
    pub sides: Rows<Side>,
    pub entries: Rows<Seq<Text>>,
    pub layout: LayoutView,
    pub shelved: Seq<(Text, Shelved)>,
}

impl Project {
    /// The files of the project, or the fault.
    pub open spec fn generation(self) -> Result<Seq<FileText>, MapFault> {
        pass::generation(
            self.root,
            self.modules,
            self.sides,
            self.entries,
            self.layout,
            self.shelved,
        )
    }

    /// The files of the project: the leaves of the modules, then the others.
    pub open spec fn files(self) -> Seq<FileText> {
        self.generation()->Ok_0
    }

    /// The files that are not leaves.
    pub open spec fn rest(self) -> Seq<FileText> {
        self.files().skip(self.modules.len() as int)
    }

    /// The leaves that a pass writes that reads the fresh modules.
    pub open spec fn leaves(self, fresh: Seq<bool>) -> Seq<FileText> {
        pass::leaf_entries(
            pass::newly(self.modules, fresh),
            self.sides,
            self.entries,
            self.layout,
        )->Ok_0
    }

    /// The leaves that a pass removes, given what stands in their folders.
    pub open spec fn gone(self, listing: Seq<Text>) -> Seq<Text> {
        pass::abandoned(listing, self.modules, self.sides, self.layout)
    }

    /// The disk after a pass.
    pub open spec fn after(self, disk: Disk, fresh: Seq<bool>, listing: Seq<Text>) -> Disk {
        after(disk, self.leaves(fresh), self.gone(listing), self.rest())
    }

    /// Whether a pass writes or removes anything, which is what it returns.
    pub open spec fn changes(self, disk: Disk, fresh: Seq<bool>, listing: Seq<Text>) -> bool {
        changes(disk, self.leaves(fresh), self.gone(listing), self.rest())
    }

    /// The project has its files, each in a place of its own.
    pub open spec fn ready(self) -> bool {
        &&& self.generation() is Ok
        &&& well_placed(self.files(), self.modules.len() as int, self.layout)
    }
}

/// The leaves that a pass writes are among the files of the project.
pub proof fn lemma_leaves_within(p: Project, fresh: Seq<bool>)
    requires
        p.generation() is Ok,
    ensures
        p.files().len() >= p.modules.len(),
        pass::leaf_entries(pass::newly(p.modules, fresh), p.sides, p.entries, p.layout) is Ok,
        forall|entry: FileText| #[trigger]
            p.leaves(fresh).contains(entry) <==> exists|i: int|
                0 <= i < p.modules.len() && i < fresh.len() && fresh[i] && #[trigger] p.files()[i]
                    == entry,
        within(p.leaves(fresh), p.files()),
        within(p.rest(), p.files()),
{
    pass::law_generation(p.root, p.modules, p.sides, p.entries, p.layout, p.shelved);
    let ms = p.modules;
    let some = pass::newly(ms, fresh);
    assert forall|k: int| 0 <= k < some.len() implies pass::leaf_entry(
        #[trigger] some[k],
        p.sides,
        p.entries,
        p.layout,
    ) is Ok by {
        assert(some.contains(some[k]));
        lemma_newly(ms, fresh, some[k]);
        let i = choose|i: int|
            0 <= i < ms.len() && i < fresh.len() && fresh[i] && #[trigger] ms[i] == some[k];
        assert(p.files()[i] == p.files()[i]);
    }
    lemma_leaves_made(some, p.sides, p.entries, p.layout);
    assert forall|entry: FileText| #[trigger]
        p.leaves(fresh).contains(entry) <==> exists|i: int|
            0 <= i < ms.len() && i < fresh.len() && fresh[i] && #[trigger] p.files()[i] == entry by {
        law_only_new_leaves_are_written(ms, fresh, p.sides, p.entries, p.layout, entry);
        if p.leaves(fresh).contains(entry) {
            let i = choose|i: int|
                0 <= i < ms.len() && i < fresh.len() && fresh[i] && pass::leaf_entry(
                    #[trigger] ms[i],
                    p.sides,
                    p.entries,
                    p.layout,
                ) == Ok::<FileText, MapFault>(entry);
            assert(p.files()[i] == entry);
        }
        if exists|i: int|
            0 <= i < ms.len() && i < fresh.len() && fresh[i] && #[trigger] p.files()[i] == entry {
            let i = choose|i: int|
                0 <= i < ms.len() && i < fresh.len() && fresh[i] && #[trigger] p.files()[i]
                    == entry;
            assert(pass::leaf_entry(ms[i], p.sides, p.entries, p.layout) == Ok::<
                FileText,
                MapFault,
            >(entry));
        }
    }
    let leaves = p.leaves(fresh);
    assert forall|k: int| 0 <= k < leaves.len() implies p.files().contains(#[trigger] leaves[k]) by {
        assert(leaves.contains(leaves[k]));
        let i = choose|i: int|
            0 <= i < ms.len() && i < fresh.len() && fresh[i] && #[trigger] p.files()[i]
                == leaves[k];
        assert(p.files().contains(p.files()[i]));
    }
    let rest = p.rest();
    assert forall|k: int| 0 <= k < rest.len() implies p.files().contains(#[trigger] rest[k]) by {
        assert(p.files()[ms.len() + k] == rest[k]);
    }
}

/// After a pass every file that it is about holds its text: the others, the
/// leaves that it wrote, and the leaves that held theirs before.
proof fn lemma_after_a_pass(
    p: Project,
    disk: Disk,
    fresh: Seq<bool>,
    listing: Seq<Text>,
    i: int,
)
    requires
        p.ready(),
        0 <= i < p.files().len(),
        i >= p.modules.len() || (i < fresh.len() && fresh[i]) || holds(disk, p.files()[i]),
    ensures
        holds(p.after(disk, fresh, listing), p.files()[i]),
{
    lemma_leaves_within(p, fresh);
    pass::law_generation(p.root, p.modules, p.sides, p.entries, p.layout, p.shelved);
    let entry = p.files()[i];
    let gone = p.gone(listing);
    let written = with_files(disk, p.leaves(fresh));
    let swept = without_files(written, gone);
    assert(p.files().contains(entry));
    if i < p.modules.len() {
        if i < fresh.len() && fresh[i] {
            assert(p.leaves(fresh).contains(entry));
        }
        lemma_written(disk, p.leaves(fresh), p.files(), entry);
        let place = paths::parts(entry.0);
        assert forall|k: int| 0 <= k < gone.len() implies place != paths::parts(
            #[trigger] gone[k],
        ) by {
            assert(gone.contains(gone[k]));
            pass::law_sweep(listing, p.modules, p.sides, p.layout, gone[k]);
            assert(pass::leaf_entry(p.modules[i], p.sides, p.entries, p.layout) is Ok);
            assert(entry.0 == manifest::leaf_file(p.layout, p.sides, p.modules[i].id));
            if place == paths::parts(gone[k]) {
                assert(paths::parts(gone[k]) == paths::parts(
                    manifest::leaf_file(p.layout, p.sides, p.modules[i].id),
                ));
            }
        }
        lemma_removed(written, gone, place);
        assert(holds(swept, entry));
    } else {
        assert(p.rest()[i - p.modules.len()] == entry);
        assert(p.rest().contains(entry));
    }
    lemma_written(swept, p.rest(), p.files(), entry);
}

/// What a second pass finds in the folders of the leaves are leaves.
proof fn lemma_nothing_left_to_sweep(
    p: Project,
    disk: Disk,
    fresh: Seq<bool>,
    listing: Seq<Text>,
    again: Seq<Text>,
)
    requires
        p.ready(),
        is_listing(listing, disk, p.layout),
        is_listing(again, p.after(disk, fresh, listing), p.layout),
    ensures
        p.gone(again).len() == 0,
{
    if p.gone(again).len() > 0 {
        let path = p.gone(again)[0];
        assert(p.gone(again).contains(path));
        pass::law_sweep(again, p.modules, p.sides, p.layout, path);
        assert(again.contains(path));
        let place = paths::parts(path);
        let gone = p.gone(listing);
        let written = with_files(disk, p.leaves(fresh));
        let swept = without_files(written, gone);
        assert(with_files(swept, p.rest()).dom().contains(place));
        lemma_written_places(swept, p.rest(), place);
        if exists|k: int| 0 <= k < p.rest().len() && place == paths::parts(
            (#[trigger] p.rest()[k]).0,
        ) {
            let k = choose|k: int|
                0 <= k < p.rest().len() && place == paths::parts((#[trigger] p.rest()[k]).0);
            lemma_leaves_within(p, fresh);
            assert(p.files()[p.modules.len() + k] == p.rest()[k]);
        }
        lemma_removed(written, gone, place);
        assert(written.dom().contains(place));
        let leaves = p.leaves(fresh);
        lemma_written_places(disk, leaves, place);
        if exists|k: int| 0 <= k < leaves.len() && place == paths::parts(
            (#[trigger] leaves[k]).0,
        ) {
            let k = choose|k: int|
                0 <= k < leaves.len() && place == paths::parts((#[trigger] leaves[k]).0);
            lemma_leaves_within(p, fresh);
            pass::law_generation(p.root, p.modules, p.sides, p.entries, p.layout, p.shelved);
            assert(leaves.contains(leaves[k]));
            let i = choose|i: int|
                0 <= i < p.modules.len() && i < fresh.len() && fresh[i] && #[trigger] p.files()[i]
                    == leaves[k];
            assert(Ok::<FileText, MapFault>(p.files()[i]) == pass::leaf_entry(
                p.modules[i],
                p.sides,
                p.entries,
                p.layout,
            ));
            assert(paths::parts(path) == paths::parts(
                manifest::leaf_file(p.layout, p.sides, p.modules[i].id),
            ));
        }
        assert(disk.dom().contains(place));
        let k = choose|k: int| 0 <= k < listing.len() && place == paths::parts(
            #[trigger] listing[k],
        );
        lemma_same_place(path, listing[k], p.modules, p.sides, p.layout);
        assert(listing.contains(listing[k]));
        pass::law_sweep(listing, p.modules, p.sides, p.layout, listing[k]);
        let j = choose|j: int| 0 <= j < gone.len() && gone[j] == listing[k];
        assert(place == paths::parts(gone[j]));
    }
}

/// The modules that a pass reads: those that the cache does not give back for the
/// stamps that their files have.
pub open spec fn fresh_in(
    cache: Rows<(Stamp, ModuleView)>,
    found: Seq<(Text, Option<Stamp>)>,
) -> Seq<bool> {
    found.map_values(|f: (Text, Option<Stamp>)| state::remembered(cache, f.0, f.1) is None)
}

/// The cache after a pass that found these files, with these modules in them.
pub open spec fn read_into(
    cache: Rows<(Stamp, ModuleView)>,
    found: Seq<(Text, Option<Stamp>)>,
    ms: Seq<ModuleView>,
) -> Rows<(Stamp, ModuleView)>
    decreases found.len(),
{
    if found.len() == 0 {
        cache
    } else {
        let some = read_into(cache, found.drop_last(), ms);
        let (path, stamp) = found.last();
        if state::remembered(some, path, stamp) is None {
            state::remembering(some, path, stamp, ms[found.len() - 1])
        } else {
            some
        }
    }
}

/// No file is found twice.
pub open spec fn found_once(found: Seq<(Text, Option<Stamp>)>) -> bool {
    forall|i: int, j: int|
        #![trigger found[i], found[j]]
        0 <= i < j < found.len() ==> found[i].0 != found[j].0
}

proof fn lemma_read_into(
    cache: Rows<(Stamp, ModuleView)>,
    found: Seq<(Text, Option<Stamp>)>,
    ms: Seq<ModuleView>,
    path: Text,
)
    requires
        table::sorted(cache),
        found_once(found),
    ensures
        table::sorted(read_into(cache, found, ms)),
        (forall|i: int| 0 <= i < found.len() ==> (#[trigger] found[i]).0 != path) ==> table::get(
            read_into(cache, found, ms),
            path,
        ) == table::get(cache, path),
        forall|i: int|
            0 <= i < found.len() && (#[trigger] found[i]).0 == path ==> table::get(
                read_into(cache, found, ms),
                path,
            ) == (match (found[i].1, state::remembered(cache, path, found[i].1)) {
                (Some(stamp), None) => Some((stamp, ms[i])),
                _ => table::get(cache, path),
            }),
    decreases found.len(),
{
    if found.len() > 0 {
        let fewer = found.drop_last();
        assert forall|i: int, j: int|
            #![trigger fewer[i], fewer[j]]
            0 <= i < j < fewer.len() implies fewer[i].0 != fewer[j].0 by {
            assert(found[i].0 != found[j].0);
        }
        let (last, stamp) = found.last();
        lemma_read_into(cache, fewer, ms, path);
        lemma_read_into(cache, fewer, ms, last);
        let some = read_into(cache, fewer, ms);
        assert forall|i: int| 0 <= i < fewer.len() implies (#[trigger] fewer[i]).0 != last by {
            assert(found[i].0 != found[found.len() - 1].0);
        }
        assert(table::get(some, last) == table::get(cache, last));
        if let Some(s) = stamp {
            table::law_put_sorted(some, last, (s, ms[found.len() - 1]));
            table::law_get_put(some, last, (s, ms[found.len() - 1]), path);
        }
        if forall|i: int| 0 <= i < found.len() ==> (#[trigger] found[i]).0 != path {
            assert forall|i: int| 0 <= i < fewer.len() implies (#[trigger] fewer[i]).0 != path by {
                assert(found[i].0 != path);
            }
            assert(found[found.len() - 1].0 != path);
        }
        assert forall|i: int|
            0 <= i < found.len() && (#[trigger] found[i]).0 == path implies table::get(
            read_into(cache, found, ms),
            path,
        ) == (match (found[i].1, state::remembered(cache, path, found[i].1)) {
            (Some(stamp), None) => Some((stamp, ms[i])),
            _ => table::get(cache, path),
        }) by {
            if i < fewer.len() {
                assert(found[i].0 != found[found.len() - 1].0);
                assert(fewer[i].0 == path);
            }
        }
    }
}

/// A file that a pass has read is not read again as long as it keeps its stamp:
/// what a second pass reads are files without a stamp, which the first one read
/// as well.
pub proof fn law_read_once(
    cache: Rows<(Stamp, ModuleView)>,
    found: Seq<(Text, Option<Stamp>)>,
    ms: Seq<ModuleView>,
    i: int,
)
    requires
        table::sorted(cache),
        found_once(found),
        0 <= i < found.len(),
    ensures
        fresh_in(read_into(cache, found, ms), found)[i] ==> found[i].1 is None,
        fresh_in(read_into(cache, found, ms), found)[i] ==> fresh_in(cache, found)[i],
{
    lemma_read_into(cache, found, ms, found[i].0);
}

/// A second pass over the same files writes nothing and removes nothing, whatever
/// was on the disk and in the cache before the first.
pub proof fn law_second_pass_changes_nothing(
    p: Project,
    disk: Disk,
    cache: Rows<(Stamp, ModuleView)>,
    found: Seq<(Text, Option<Stamp>)>,
    listing: Seq<Text>,
    again: Seq<Text>,
)
    requires
        p.ready(),
        table::sorted(cache),
        found_once(found),
        is_listing(listing, disk, p.layout),
        is_listing(again, p.after(disk, fresh_in(cache, found), listing), p.layout),
    ensures
        ({
            let done = p.after(disk, fresh_in(cache, found), listing);
            let fresh = fresh_in(read_into(cache, found, p.modules), found);
            !p.changes(done, fresh, again) && p.after(done, fresh, again) == done
        }),
{
    let first = fresh_in(cache, found);
    let done = p.after(disk, first, listing);
    let fresh = fresh_in(read_into(cache, found, p.modules), found);
    lemma_leaves_within(p, first);
    lemma_leaves_within(p, fresh);
    let leaves = p.leaves(fresh);
    assert forall|k: int| 0 <= k < leaves.len() implies holds(done, #[trigger] leaves[k]) by {
        assert(leaves.contains(leaves[k]));
        let i = choose|i: int|
            0 <= i < p.modules.len() && i < fresh.len() && fresh[i] && #[trigger] p.files()[i]
                == leaves[k];
        law_read_once(cache, found, p.modules, i);
        lemma_after_a_pass(p, disk, first, listing, i);
    }
    lemma_nothing_differs(done, leaves);
    lemma_nothing_left_to_sweep(p, disk, first, listing, again);
    let rest = p.rest();
    assert forall|k: int| 0 <= k < rest.len() implies holds(done, #[trigger] rest[k]) by {
        lemma_after_a_pass(p, disk, first, listing, p.modules.len() + k);
        assert(p.files()[p.modules.len() + k] == rest[k]);
    }
    lemma_nothing_differs(done, rest);
    assert(without_files(done, p.gone(again)) == done);
}

/// What a check reads of some files.
pub open spec fn read_back(disk: Disk, files: Seq<FileText>) -> Seq<Option<Text>> {
    files.map_values(
        |e: FileText|
            if disk.dom().contains(paths::parts(e.0)) {
                Some(disk[paths::parts(e.0)])
            } else {
                None
            },
    )
}

/// After a pass a check finds nothing out of date, but for leaves that were out of
/// date before although their modules are in the cache. With an empty cache there
/// are none.
pub proof fn law_check_is_clean_after_a_pass(
    p: Project,
    disk: Disk,
    cache: Rows<(Stamp, ModuleView)>,
    found: Seq<(Text, Option<Stamp>)>,
    listing: Seq<Text>,
)
    requires
        p.ready(),
        found.len() == p.modules.len(),
        cache.len() == 0 || forall|i: int|
            0 <= i < found.len() && !#[trigger] fresh_in(cache, found)[i] ==> holds(
                disk,
                p.files()[i],
            ),
    ensures
        pass::out_of_date(
            p.files(),
            read_back(p.after(disk, fresh_in(cache, found), listing), p.files()),
        ).len() == 0,
{
    let fresh = fresh_in(cache, found);
    let done = p.after(disk, fresh, listing);
    lemma_leaves_within(p, fresh);
    let now = read_back(done, p.files());
    assert forall|i: int| 0 <= i < p.files().len() implies #[trigger] now[i] == pass::texts_of(
        p.files(),
    )[i] by {
        if i < found.len() && cache.len() == 0 {
            assert(fresh[i]);
        }
        lemma_after_a_pass(p, disk, fresh, listing, i);
    }
    assert(now =~= pass::texts_of(p.files()));
    pass::law_check(p.files(), now);
}

/// The modules go together, in one of the two layouts, and no id is itself a path
/// from the root.
pub open spec fn sound(p: Project, source: Text, rogen: bool) -> bool {
    &&& p.generation() is Ok
    &&& p.layout == layout::either(source, rogen)
    &&& manifest::validated(p.modules, p.entries) == Ok::<Rows<Side>, ManifestFault>(p.sides)
    &&& forall|i: int|
        0 <= i < p.modules.len() && (#[trigger] p.modules[i]).id.len() > 0 ==> p.modules[i].id[0]
            != '/'
}

proof fn lemma_file_names(p: Project)
    requires
        p.generation() is Ok,
        p.layout.targets.len() == 2,
        p.layout.module_lists.len() == 2,
    ensures
        p.files().len() == p.modules.len() + 5,
        forall|i: int|
            0 <= i < p.modules.len() ==> (#[trigger] p.files()[i]).0 == manifest::leaf_file(
                p.layout,
                p.sides,
                p.modules[i].id,
            ),
        forall|i: int|
            p.modules.len() <= i < p.files().len() ==> (#[trigger] p.files()[i]).0
                == layout::file_at(p.layout, i - p.modules.len()),
{
    let all = p.files();
    let n = p.modules.len() as int;
    let lay = p.layout;
    pass::law_generation(p.root, p.modules, p.sides, p.entries, p.layout, p.shelved);
    assert forall|i: int| n <= i < all.len() implies (#[trigger] all[i]).0 == layout::file_at(
        lay,
        i - n,
    ) by {
        let k = i - n;
        if k < 2 {
            let made = manifest::manifest_of(
                lay.targets[k].0,
                p.modules,
                p.sides,
                p.entries,
                lay,
            );
            assert(Ok::<FileText, MapFault>(all[n + k]) == pass::in_file(lay.targets[k].1, made));
        } else if k < 4 {
            let made = manifest::list_of(
                lay.module_lists[k - 2].0,
                p.modules,
                p.sides,
                p.entries,
            );
            assert(Ok::<FileText, MapFault>(all[n + 2 + (k - 2)]) == pass::in_file(
                lay.module_lists[k - 2].1,
                made,
            ));
        } else {
            assert(all[i] == all.last());
        }
    }
    assert forall|i: int| 0 <= i < n implies (#[trigger] all[i]).0 == manifest::leaf_file(
        lay,
        p.sides,
        p.modules[i].id,
    ) by {
        assert(Ok::<FileText, MapFault>(all[i]) == pass::leaf_entry(
            p.modules[i],
            p.sides,
            p.entries,
            lay,
        ));
    }
}

proof fn lemma_two_files_apart(p: Project, source: Text, rogen: bool, i: int, j: int)
    requires
        sound(p, source, rogen),
        0 <= i < j < p.files().len(),
    ensures
        paths::parts(p.files()[i].0) != paths::parts(p.files()[j].0),
{
    reveal_strlit(".luau");
    let n = p.modules.len() as int;
    let lay = p.layout;
    lemma_file_names(p);
    if i >= n {
        layout::lemma_files_apart(source, rogen, i - n, j - n);
    } else if j < n {
        assert(p.modules[i].id.len() > 0 ==> p.modules[i].id[0] != '/');
        assert(p.modules[j].id.len() > 0 ==> p.modules[j].id[0] != '/');
        manifest::law_leaves_never_collide(p.modules, p.entries, source, rogen, i, j);
    } else {
        let id = p.modules[i].id;
        let side = table::get(p.sides, id)->0;
        let dir = layout::types_dir_of(lay.types_dirs, side)->0;
        layout::lemma_dir(source, rogen, side);
        let name = id + ".luau"@;
        assert(name[0] != '/');
        paths::law_join(dir, name);
        layout::lemma_files_outside(
            source,
            rogen,
            j - n,
            side,
            paths::tail_parts(text::split(name, '/')),
        );
    }
}

proof fn lemma_outside_the_folders(p: Project, source: Text, rogen: bool, i: int)
    requires
        sound(p, source, rogen),
        p.modules.len() <= i < p.files().len(),
    ensures
        !in_leaf_folder(paths::parts(p.files()[i].0), p.layout),
{
    let n = p.modules.len() as int;
    let dirs = p.layout.types_dirs;
    lemma_file_names(p);
    reveal_with_fuel(layout::types_dir_of, 3);
    layout::lemma_files_outside(source, rogen, i - n, Side::Client, Seq::empty());
    layout::lemma_files_outside(source, rogen, i - n, Side::Server, Seq::empty());
    layout::lemma_files_outside(source, rogen, i - n, Side::Shared, Seq::empty());
    assert(dirs.len() == 3);
    assert(dirs.drop_first()[0] == dirs[1]);
    assert(dirs.drop_first().drop_first()[0] == dirs[2]);
}

/// In modules that go together, with a project file and with a sourcemap, every
/// file has a place of its own, so that the laws above hold of every project. (An
/// id that is itself a path from the root says where its leaf goes, whatever else
/// is there.)
pub proof fn law_files_have_places_of_their_own(p: Project, source: Text, rogen: bool)
    requires
        sound(p, source, rogen),
    ensures
        p.ready(),
{
    let all = p.files();
    assert forall|i: int, j: int|
        #![trigger all[i], all[j]]
        0 <= i < j < all.len() implies paths::parts(all[i].0) != paths::parts(all[j].0) by {
        lemma_two_files_apart(p, source, rogen, i, j);
    }
    assert forall|i: int| p.modules.len() <= i < all.len() implies !in_leaf_folder(
        paths::parts((#[trigger] all[i]).0),
        p.layout,
    ) by {
        lemma_outside_the_folders(p, source, rogen, i);
    }
}

} // verus!
