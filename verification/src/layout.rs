//! Where the framework lives on disk.

use vstd::prelude::*;

use crate::paths::{self, join_path};
use crate::rojo::Side;
use crate::text::{copy, Text};

verus! {

/// Where the framework's files live, relative to the project.
///
/// With a project file the tree of the game is derived from the folders. With a
/// sourcemap the disk already is the tree, so the same files live under the
/// whole path. Both lead to the same instances.
pub struct Layout {
    /// The folder that the generator reads.
    pub source: String,
    /// The Manifest of each side.
    pub targets: Vec<(Side, String)>,
    /// The module list of each side.
    pub module_lists: Vec<(Side, String)>,
    /// The folder of the type leaves of each side.
    pub types_dirs: Vec<(Side, String)>,
    /// The folder of the libraries.
    pub libs_dir: String,
    /// The file that lists the libraries.
    pub libs_target: String,
}

/// What a `Layout` holds.
pub struct LayoutView {
    pub source: Text,
    pub targets: Seq<(Side, Text)>,
    pub module_lists: Seq<(Side, Text)>,
    pub types_dirs: Seq<(Side, Text)>,
    pub libs_dir: Text,
    pub libs_target: Text,
}

impl DeepView for Layout {
    type V = LayoutView;

    open spec fn deep_view(&self) -> LayoutView {
        LayoutView {
            source: self.source@,
            targets: self.targets.deep_view(),
            module_lists: self.module_lists.deep_view(),
            types_dirs: self.types_dirs.deep_view(),
            libs_dir: self.libs_dir@,
            libs_target: self.libs_target@,
        }
    }
}

/// The layout under a project file.
pub open spec fn rogen_layout(source: Text) -> LayoutView {
    LayoutView {
        source,
        targets: seq![
            (Side::Client, paths::path_join(source, "Modux/client/Manifest/init.luau"@)),
            (Side::Server, paths::path_join(source, "Modux/server/Manifest/init.luau"@)),
        ],
        module_lists: seq![
            (Side::Client, paths::path_join(source, "Modux/client/Modules.luau"@)),
            (Side::Server, paths::path_join(source, "Modux/server/Modules.luau"@)),
        ],
        types_dirs: seq![
            (Side::Client, paths::path_join(source, "ModuxTypes/client"@)),
            (Side::Server, paths::path_join(source, "ModuxTypes/server"@)),
            (Side::Shared, paths::path_join(source, "ModuxTypes/shared"@)),
        ],
        libs_dir: paths::path_join(source, "Libs"@),
        libs_target: paths::path_join(source, "Modux/shared/Libs.luau"@),
    }
}

/// The layout where the disk is the tree.
pub open spec fn mirror_layout(source: Text) -> LayoutView {
    let client = paths::path_join(source, "StarterPlayer/StarterPlayerScripts/client"@);
    let server = paths::path_join(source, "ServerScriptService/server"@);
    let shared = paths::path_join(source, "ReplicatedStorage/shared"@);
    LayoutView {
        source,
        targets: seq![
            (Side::Client, paths::path_join(client, "Modux/Manifest/init.luau"@)),
            (Side::Server, paths::path_join(server, "Modux/Manifest/init.luau"@)),
        ],
        module_lists: seq![
            (Side::Client, paths::path_join(client, "Modux/Modules.luau"@)),
            (Side::Server, paths::path_join(server, "Modux/Modules.luau"@)),
        ],
        types_dirs: seq![
            (Side::Client, paths::path_join(client, "ModuxTypes"@)),
            (Side::Server, paths::path_join(server, "ModuxTypes"@)),
            (Side::Shared, paths::path_join(shared, "ModuxTypes"@)),
        ],
        libs_dir: paths::path_join(shared, "Libs"@),
        libs_target: paths::path_join(shared, "Modux/Libs.luau"@),
    }
}

/// The folder of a side's type leaves: the first that is listed for it.
pub open spec fn types_dir_of(dirs: Seq<(Side, Text)>, side: Side) -> Option<Text>
    decreases dirs.len(),
{
    if dirs.len() == 0 {
        None
    } else if dirs[0].0 == side {
        Some(dirs[0].1)
    } else {
        types_dir_of(dirs.drop_first(), side)
    }
}

impl LayoutView {
    /// Every side has a folder for its leaves.
    pub open spec fn complete(self) -> bool {
        forall|side: Side| (#[trigger] types_dir_of(self.types_dirs, side)) is Some
    }
}

impl Layout {
    /// The disk describes folders, which are translated to the tree.
    pub fn rogen(source: &str) -> (r: Layout)
        ensures
            r.deep_view() == rogen_layout(source@),
            r.deep_view().complete(),
    {
        let r = Layout {
            source: copy(source),
            targets: vec![
                (Side::Client, join_path(source, "Modux/client/Manifest/init.luau")),
                (Side::Server, join_path(source, "Modux/server/Manifest/init.luau")),
            ],
            module_lists: vec![
                (Side::Client, join_path(source, "Modux/client/Modules.luau")),
                (Side::Server, join_path(source, "Modux/server/Modules.luau")),
            ],
            types_dirs: vec![
                (Side::Client, join_path(source, "ModuxTypes/client")),
                (Side::Server, join_path(source, "ModuxTypes/server")),
                (Side::Shared, join_path(source, "ModuxTypes/shared")),
            ],
            libs_dir: join_path(source, "Libs"),
            libs_target: join_path(source, "Modux/shared/Libs.luau"),
        };
        proof {
            let want = rogen_layout(source@);
            assert(r.targets.deep_view() =~= want.targets);
            assert(r.module_lists.deep_view() =~= want.module_lists);
            assert(r.types_dirs.deep_view() =~= want.types_dirs);
            lemma_complete(want.types_dirs);
        }
        r
    }

    /// The disk is the tree, so a path carries the whole service.
    pub fn mirror(source: &str) -> (r: Layout)
        ensures
            r.deep_view() == mirror_layout(source@),
            r.deep_view().complete(),
    {
        let client = join_path(source, "StarterPlayer/StarterPlayerScripts/client");
        let server = join_path(source, "ServerScriptService/server");
        let shared = join_path(source, "ReplicatedStorage/shared");
        let r = Layout {
            source: copy(source),
            targets: vec![
                (Side::Client, join_path(client.as_str(), "Modux/Manifest/init.luau")),
                (Side::Server, join_path(server.as_str(), "Modux/Manifest/init.luau")),
            ],
            module_lists: vec![
                (Side::Client, join_path(client.as_str(), "Modux/Modules.luau")),
                (Side::Server, join_path(server.as_str(), "Modux/Modules.luau")),
            ],
            types_dirs: vec![
                (Side::Client, join_path(client.as_str(), "ModuxTypes")),
                (Side::Server, join_path(server.as_str(), "ModuxTypes")),
                (Side::Shared, join_path(shared.as_str(), "ModuxTypes")),
            ],
            libs_dir: join_path(shared.as_str(), "Libs"),
            libs_target: join_path(shared.as_str(), "Modux/Libs.luau"),
        };
        proof {
            let want = mirror_layout(source@);
            assert(r.targets.deep_view() =~= want.targets);
            assert(r.module_lists.deep_view() =~= want.module_lists);
            assert(r.types_dirs.deep_view() =~= want.types_dirs);
            lemma_complete(want.types_dirs);
        }
        r
    }

    /// The folder of a side's type leaves.
    pub fn types_dir(&self, side: Side) -> (r: &String)
        requires
            types_dir_of(self.deep_view().types_dirs, side) is Some,
        ensures
            types_dir_of(self.deep_view().types_dirs, side) == Some(r@),
    {
        let ghost all = self.types_dirs.deep_view();
        let n: usize = self.types_dirs.len();
        let mut i: usize = 0;
        assert(all.skip(0) =~= all);
        while self.types_dirs[i].0 != side
            invariant
                all == self.types_dirs.deep_view(),
                n == all.len(),
                i < n,
                types_dir_of(all.skip(i as int), side) == types_dir_of(all, side),
                types_dir_of(all, side) is Some,
            decreases all.len() - i,
        {
            assert(all.skip(i as int).drop_first() =~= all.skip(i + 1));
            i = i + 1;
        }
        &self.types_dirs[i].1
    }
}

proof fn lemma_complete(dirs: Seq<(Side, Text)>)
    requires
        dirs.len() == 3,
        dirs[0].0 == Side::Client,
        dirs[1].0 == Side::Server,
        dirs[2].0 == Side::Shared,
    ensures
        forall|side: Side| (#[trigger] types_dir_of(dirs, side)) is Some,
{
    assert forall|side: Side| (#[trigger] types_dir_of(dirs, side)) is Some by {
        reveal_with_fuel(types_dir_of, 3);
    }
}

/// How far the folders of two sides have the same components.
spec fn shared_depth(source: Text, rogen: bool) -> int {
    paths::parts(source).len() + if rogen {
        1int
    } else {
        0
    }
}

/// The folder of a side has a component of its own.
spec fn own_part(rogen: bool, side: Side) -> Text {
    match (rogen, side) {
        (true, Side::Client) => "client"@,
        (true, Side::Server) => "server"@,
        (true, Side::Shared) => "shared"@,
        (false, Side::Client) => "StarterPlayer"@,
        (false, Side::Server) => "ServerScriptService"@,
        (false, Side::Shared) => "ReplicatedStorage"@,
    }
}

/// A folder of leaves, with the component that is its side's own.
proof fn lemma_own_part(source: Text, rogen: bool, side: Side)
    ensures
        ({
            let dirs = if rogen {
                rogen_layout(source).types_dirs
            } else {
                mirror_layout(source).types_dirs
            };
            let k = shared_depth(source, rogen);
            &&& types_dir_of(dirs, side) matches Some(dir)
            &&& dir.len() > 0
            &&& 0 <= k < paths::parts(dir).len()
            &&& paths::parts(dir)[k] == paths::PartView::Name(own_part(rogen, side))
        }),
{
    reveal_with_fuel(types_dir_of, 3);
    reveal_strlit("client");
    reveal_strlit("server");
    reveal_strlit("shared");
    reveal_strlit("ModuxTypes");
    reveal_strlit("ModuxTypes/client");
    reveal_strlit("ModuxTypes/server");
    reveal_strlit("ModuxTypes/shared");
    reveal_strlit("StarterPlayer");
    reveal_strlit("StarterPlayerScripts/client");
    reveal_strlit("ServerScriptService");
    reveal_strlit("ReplicatedStorage");
    reveal_strlit("StarterPlayer/StarterPlayerScripts/client");
    reveal_strlit("ServerScriptService/server");
    reveal_strlit("ReplicatedStorage/shared");
    reveal_strlit(".");
    reveal_strlit("..");
    let own = own_part(rogen, side);
    if rogen {
        let types = "ModuxTypes"@;
        let lit = types.push('/') + own;
        paths::lemma_below_two(source, types, own);
        match side {
            Side::Client => assert(lit =~= "ModuxTypes/client"@),
            Side::Server => assert(lit =~= "ModuxTypes/server"@),
            Side::Shared => assert(lit =~= "ModuxTypes/shared"@),
        }
    } else {
        let rest = match side {
            Side::Client => "StarterPlayerScripts/client"@,
            Side::Server => "server"@,
            Side::Shared => "shared"@,
        };
        let lit = own.push('/') + rest;
        match side {
            Side::Client => assert(lit =~= "StarterPlayer/StarterPlayerScripts/client"@),
            Side::Server => assert(lit =~= "ServerScriptService/server"@),
            Side::Shared => assert(lit =~= "ReplicatedStorage/shared"@),
        }
        paths::lemma_below_first(source, own, rest);
        paths::law_join(paths::path_join(source, lit), "ModuxTypes"@);
    }
}

/// What is put in the folders of two sides is never in the same place.
pub proof fn lemma_dirs_apart(source: Text, rogen: bool, a: Side, b: Side, x: Text, y: Text)
    requires
        a != b,
        x.len() == 0 || x[0] != '/',
        y.len() == 0 || y[0] != '/',
    ensures
        ({
            let dirs = if rogen {
                rogen_layout(source).types_dirs
            } else {
                mirror_layout(source).types_dirs
            };
            paths::parts(paths::path_join(types_dir_of(dirs, a)->0, x)) != paths::parts(
                paths::path_join(types_dir_of(dirs, b)->0, y),
            )
        }),
{
    let dirs = if rogen {
        rogen_layout(source).types_dirs
    } else {
        mirror_layout(source).types_dirs
    };
    lemma_own_part(source, rogen, a);
    lemma_own_part(source, rogen, b);
    let da = types_dir_of(dirs, a)->0;
    let db = types_dir_of(dirs, b)->0;
    let k = shared_depth(source, rogen);
    paths::law_join(da, x);
    paths::law_join(db, y);
    assert(paths::parts(paths::path_join(da, x))[k] == paths::parts(da)[k]);
    assert(paths::parts(paths::path_join(db, y))[k] == paths::parts(db)[k]);
    reveal_strlit("client");
    reveal_strlit("server");
    reveal_strlit("shared");
    reveal_strlit("StarterPlayer");
    reveal_strlit("ServerScriptService");
    reveal_strlit("ReplicatedStorage");
    let oa = own_part(rogen, a);
    let ob = own_part(rogen, b);
    assert(oa != ob) by {
        if oa == ob {
            assert(oa[0] == ob[0] && oa[1] == ob[1] && oa[2] == ob[2]);
        }
    }
}

/// Every side has a folder for its leaves.
pub proof fn lemma_dir(source: Text, rogen: bool, side: Side)
    ensures
        ({
            let dirs = if rogen {
                rogen_layout(source).types_dirs
            } else {
                mirror_layout(source).types_dirs
            };
            types_dir_of(dirs, side) matches Some(dir) && dir.len() > 0
        }),
{
    lemma_own_part(source, rogen, side);
}

/// The folder of a side where the disk is the tree.
pub open spec fn side_names(side: Side) -> Seq<Text> {
    match side {
        Side::Client => seq!["StarterPlayer"@, "StarterPlayerScripts"@, "client"@],
        Side::Server => seq!["ServerScriptService"@, "server"@],
        Side::Shared => seq!["ReplicatedStorage"@, "shared"@],
    }
}

/// The folder of a side's leaves, below the source folder.
pub open spec fn dir_names(rogen: bool, side: Side) -> Seq<Text> {
    if rogen {
        seq![
            "ModuxTypes"@,
            match side {
                Side::Client => "client"@,
                Side::Server => "server"@,
                Side::Shared => "shared"@,
            },
        ]
    } else {
        side_names(side) + seq!["ModuxTypes"@]
    }
}

/// The side of a file that is no leaf: Manifests, module lists, libraries.
pub open spec fn side_of_file(k: int) -> Side {
    if k == 0 || k == 2 {
        Side::Client
    } else if k == 1 || k == 3 {
        Side::Server
    } else {
        Side::Shared
    }
}

/// Where such a file is, below the source folder.
pub open spec fn file_names(rogen: bool, k: int) -> Seq<Text> {
    let tail = if k == 0 || k == 1 {
        seq!["Manifest"@, "init.luau"@]
    } else if k == 2 || k == 3 {
        seq!["Modules.luau"@]
    } else {
        seq!["Libs.luau"@]
    };
    if rogen {
        seq![
            "Modux"@,
            match side_of_file(k) {
                Side::Client => "client"@,
                Side::Server => "server"@,
                Side::Shared => "shared"@,
            },
        ] + tail
    } else {
        side_names(side_of_file(k)) + (seq!["Modux"@] + tail)
    }
}

/// The files of a layout that are no leaves: two Manifests, two module lists, the
/// libraries.
pub open spec fn file_at(layout: LayoutView, k: int) -> Text {
    if k == 0 || k == 1 {
        layout.targets[k].1
    } else if k == 2 || k == 3 {
        layout.module_lists[k - 2].1
    } else {
        layout.libs_target
    }
}

/// One of the two layouts.
pub open spec fn either(source: Text, rogen: bool) -> LayoutView {
    if rogen {
        rogen_layout(source)
    } else {
        mirror_layout(source)
    }
}

/// A name without a slash that is longer than two dots is a component.
proof fn lemma_fits(name: Text)
    requires
        name.len() > 2,
        forall|i: int| 0 <= i < name.len() ==> name[i] != '/',
    ensures
        paths::fits(paths::PartView::Name(name), false),
{
    reveal_strlit(".");
    reveal_strlit("..");
}

/// All the names of the two layouts are components.
proof fn lemma_names_fit()
    ensures
        paths::fits(paths::PartView::Name("Modux"@), false),
        paths::fits(paths::PartView::Name("ModuxTypes"@), false),
        paths::fits(paths::PartView::Name("client"@), false),
        paths::fits(paths::PartView::Name("server"@), false),
        paths::fits(paths::PartView::Name("shared"@), false),
        paths::fits(paths::PartView::Name("Manifest"@), false),
        paths::fits(paths::PartView::Name("init.luau"@), false),
        paths::fits(paths::PartView::Name("Modules.luau"@), false),
        paths::fits(paths::PartView::Name("Libs.luau"@), false),
        paths::fits(paths::PartView::Name("StarterPlayer"@), false),
        paths::fits(paths::PartView::Name("StarterPlayerScripts"@), false),
        paths::fits(paths::PartView::Name("ServerScriptService"@), false),
        paths::fits(paths::PartView::Name("ReplicatedStorage"@), false),
{
    reveal_strlit("Modux");
    reveal_strlit("ModuxTypes");
    reveal_strlit("client");
    reveal_strlit("server");
    reveal_strlit("shared");
    reveal_strlit("Manifest");
    reveal_strlit("init.luau");
    reveal_strlit("Modules.luau");
    reveal_strlit("Libs.luau");
    reveal_strlit("StarterPlayer");
    reveal_strlit("StarterPlayerScripts");
    reveal_strlit("ServerScriptService");
    reveal_strlit("ReplicatedStorage");
    lemma_fits("Modux"@);
    lemma_fits("ModuxTypes"@);
    lemma_fits("client"@);
    lemma_fits("server"@);
    lemma_fits("shared"@);
    lemma_fits("Manifest"@);
    lemma_fits("init.luau"@);
    lemma_fits("Modules.luau"@);
    lemma_fits("Libs.luau"@);
    lemma_fits("StarterPlayer"@);
    lemma_fits("StarterPlayerScripts"@);
    lemma_fits("ServerScriptService"@);
    lemma_fits("ReplicatedStorage"@);
}

/// The folder of a side, as names.
pub proof fn lemma_side_folder(source: Text, side: Side)
    ensures
        ({
            let lit = match side {
                Side::Client => "StarterPlayer/StarterPlayerScripts/client"@,
                Side::Server => "ServerScriptService/server"@,
                Side::Shared => "ReplicatedStorage/shared"@,
            };
            let folder = paths::path_join(source, lit);
            &&& folder.len() > 0
            &&& paths::parts(folder) == paths::parts(source) + paths::named(side_names(side))
        }),
{
    reveal_strlit("client");
    reveal_strlit("server");
    reveal_strlit("shared");
    reveal_strlit("StarterPlayer");
    reveal_strlit("StarterPlayerScripts");
    reveal_strlit("ServerScriptService");
    reveal_strlit("ReplicatedStorage");
    reveal_strlit("StarterPlayer/StarterPlayerScripts/client");
    reveal_strlit("ServerScriptService/server");
    reveal_strlit("ReplicatedStorage/shared");
    let names = side_names(side);
    lemma_names_fit();
    assert forall|i: int| 0 <= i < names.len() implies paths::fits(
        paths::PartView::Name(#[trigger] names[i]),
        false,
    ) by {}
    paths::lemma_below_names(source, names);
    match side {
        Side::Client => {
            lemma_slashed_three(names[0], names[1], names[2]);
            assert(names =~= seq![names[0], names[1], names[2]]);
            assert(paths::slashed(names) =~= "StarterPlayer/StarterPlayerScripts/client"@);
        },
        Side::Server => {
            lemma_slashed_two(names[0], names[1]);
            assert(names =~= seq![names[0], names[1]]);
            assert(paths::slashed(names) =~= "ServerScriptService/server"@);
        },
        Side::Shared => {
            lemma_slashed_two(names[0], names[1]);
            assert(names =~= seq![names[0], names[1]]);
            assert(paths::slashed(names) =~= "ReplicatedStorage/shared"@);
        },
    }
}

proof fn lemma_slashed_two(a: Text, b: Text)
    ensures
        paths::slashed(seq![a, b]) == a.push('/') + b,
{
    assert(seq![a, b].drop_last() =~= seq![a]);
    assert(paths::slashed(seq![a]) == a);
}

proof fn lemma_slashed_three(a: Text, b: Text, c: Text)
    ensures
        paths::slashed(seq![a, b, c]) == (a.push('/') + b).push('/') + c,
{
    lemma_slashed_two(a, b);
    assert(seq![a, b, c].drop_last() =~= seq![a, b]);
}

proof fn lemma_slashed_four(a: Text, b: Text, c: Text, d: Text)
    ensures
        paths::slashed(seq![a, b, c, d]) == ((a.push('/') + b).push('/') + c).push('/') + d,
{
    lemma_slashed_three(a, b, c);
    assert(seq![a, b, c, d].drop_last() =~= seq![a, b, c]);
}

/// The files that are no leaves, as names below the source folder.
pub proof fn lemma_file_parts(source: Text, rogen: bool, k: int)
    requires
        0 <= k < 5,
    ensures
        paths::parts(file_at(either(source, rogen), k)) == paths::parts(source) + paths::named(
            file_names(rogen, k),
        ),
{
    reveal_strlit("Modux");
    reveal_strlit("client");
    reveal_strlit("server");
    reveal_strlit("shared");
    reveal_strlit("Manifest");
    reveal_strlit("init.luau");
    reveal_strlit("Modules.luau");
    reveal_strlit("Libs.luau");
    lemma_names_fit();
    if rogen {
        let names = file_names(rogen, k);
        assert forall|i: int| 0 <= i < names.len() implies paths::fits(
            paths::PartView::Name(#[trigger] names[i]),
            false,
        ) by {}
        paths::lemma_below_names(source, names);
        if k < 2 {
            reveal_strlit("Modux/client/Manifest/init.luau");
            reveal_strlit("Modux/server/Manifest/init.luau");
            assert(names =~= seq![names[0], names[1], names[2], names[3]]);
            lemma_slashed_four(names[0], names[1], names[2], names[3]);
            if k == 0 {
                assert(paths::slashed(names) =~= "Modux/client/Manifest/init.luau"@);
            } else {
                assert(paths::slashed(names) =~= "Modux/server/Manifest/init.luau"@);
            }
        } else {
            reveal_strlit("Modux/client/Modules.luau");
            reveal_strlit("Modux/server/Modules.luau");
            reveal_strlit("Modux/shared/Libs.luau");
            assert(names =~= seq![names[0], names[1], names[2]]);
            lemma_slashed_three(names[0], names[1], names[2]);
            if k == 2 {
                assert(paths::slashed(names) =~= "Modux/client/Modules.luau"@);
            } else if k == 3 {
                assert(paths::slashed(names) =~= "Modux/server/Modules.luau"@);
            } else {
                assert(paths::slashed(names) =~= "Modux/shared/Libs.luau"@);
            }
        }
    } else {
        let side = side_of_file(k);
        lemma_side_folder(source, side);
        let folder = paths::path_join(
            source,
            match side {
                Side::Client => "StarterPlayer/StarterPlayerScripts/client"@,
                Side::Server => "ServerScriptService/server"@,
                Side::Shared => "ReplicatedStorage/shared"@,
            },
        );
        let base = side_names(side);
        let names = file_names(rogen, k).skip(base.len() as int);
        assert(file_names(rogen, k) =~= base + names);
        assert(paths::named(base + names) =~= paths::named(base) + paths::named(names));
        if k < 2 {
            reveal_strlit("Modux/Manifest/init.luau");
            assert(names =~= seq!["Modux"@, "Manifest"@, "init.luau"@]);
            lemma_slashed_three("Modux"@, "Manifest"@, "init.luau"@);
            assert(paths::slashed(names) =~= "Modux/Manifest/init.luau"@);
        } else if k < 4 {
            reveal_strlit("Modux/Modules.luau");
            assert(names =~= seq!["Modux"@, "Modules.luau"@]);
            lemma_slashed_two("Modux"@, "Modules.luau"@);
            assert(paths::slashed(names) =~= "Modux/Modules.luau"@);
        } else {
            reveal_strlit("Modux/Libs.luau");
            assert(names =~= seq!["Modux"@, "Libs.luau"@]);
            lemma_slashed_two("Modux"@, "Libs.luau"@);
            assert(paths::slashed(names) =~= "Modux/Libs.luau"@);
        }
        assert forall|i: int| 0 <= i < names.len() implies paths::fits(
            paths::PartView::Name(#[trigger] names[i]),
            false,
        ) by {}
        paths::lemma_below_names(folder, names);
        assert(file_at(mirror_layout(source), k) == paths::path_join(
            folder,
            paths::slashed(names),
        ));
        assert(paths::parts(source) + paths::named(base) + paths::named(names) =~= paths::parts(
            source,
        ) + paths::named(file_names(rogen, k)));
    }
}

/// The folders of the leaves, as names below the source folder.
pub proof fn lemma_dir_parts(source: Text, rogen: bool, side: Side)
    ensures
        types_dir_of(either(source, rogen).types_dirs, side) is Some,
        ({
            let dir = types_dir_of(either(source, rogen).types_dirs, side)->0;
            &&& dir.len() > 0
            &&& paths::parts(dir) == paths::parts(source) + paths::named(dir_names(rogen, side))
        }),
{
    reveal_with_fuel(types_dir_of, 3);
    reveal_strlit("ModuxTypes");
    reveal_strlit("client");
    reveal_strlit("server");
    reveal_strlit("shared");
    lemma_names_fit();
    lemma_dir(source, rogen, side);
    let names = dir_names(rogen, side);
    if rogen {
        reveal_strlit("ModuxTypes/client");
        reveal_strlit("ModuxTypes/server");
        reveal_strlit("ModuxTypes/shared");
        assert(names =~= seq![names[0], names[1]]);
        lemma_slashed_two(names[0], names[1]);
        assert forall|i: int| 0 <= i < names.len() implies paths::fits(
            paths::PartView::Name(#[trigger] names[i]),
            false,
        ) by {}
        paths::lemma_below_names(source, names);
        match side {
            Side::Client => assert(paths::slashed(names) =~= "ModuxTypes/client"@),
            Side::Server => assert(paths::slashed(names) =~= "ModuxTypes/server"@),
            Side::Shared => assert(paths::slashed(names) =~= "ModuxTypes/shared"@),
        }
    } else {
        lemma_side_folder(source, side);
        let folder = paths::path_join(
            source,
            match side {
                Side::Client => "StarterPlayer/StarterPlayerScripts/client"@,
                Side::Server => "ServerScriptService/server"@,
                Side::Shared => "ReplicatedStorage/shared"@,
            },
        );
        let own = seq!["ModuxTypes"@];
        paths::lemma_below_names(folder, own);
        assert(paths::slashed(own) == "ModuxTypes"@);
        let base = side_names(side);
        assert(paths::named(base + own) =~= paths::named(base) + paths::named(own));
        assert(paths::parts(source) + paths::named(base) + paths::named(own) =~= paths::parts(
            source,
        ) + paths::named(names));
    }
}

/// Where the names of two paths first differ.
spec fn forks(a: Seq<Text>, b: Seq<Text>, n: int) -> bool {
    0 <= n < a.len() && n < b.len() && a[n] != b[n]
}

proof fn lemma_forks(
    source: Text,
    a: Seq<Text>,
    b: Seq<Text>,
    n: int,
    x: Seq<paths::PartView>,
    y: Seq<paths::PartView>,
)
    requires
        forks(a, b, n),
    ensures
        paths::parts(source) + paths::named(a) + x != paths::parts(source) + paths::named(b) + y,
{
    let s = paths::parts(source);
    let k = s.len() + n;
    assert((s + paths::named(a) + x)[k] == paths::PartView::Name(a[n]));
    assert((s + paths::named(b) + y)[k] == paths::PartView::Name(b[n]));
}

/// The names of the layouts that set their paths apart are different.
proof fn lemma_names_differ()
    ensures
        "Modux"@ != "ModuxTypes"@,
        "client"@ != "server"@,
        "client"@ != "shared"@,
        "server"@ != "shared"@,
        "StarterPlayer"@ != "ServerScriptService"@,
        "StarterPlayer"@ != "ReplicatedStorage"@,
        "ServerScriptService"@ != "ReplicatedStorage"@,
{
    reveal_strlit("Modux");
    reveal_strlit("ModuxTypes");
    reveal_strlit("client");
    reveal_strlit("server");
    reveal_strlit("shared");
    reveal_strlit("StarterPlayer");
    reveal_strlit("ServerScriptService");
    reveal_strlit("ReplicatedStorage");
    assert("client"@[0] != "server"@[0]);
    assert("client"@[0] != "shared"@[0]);
    assert("server"@[1] != "shared"@[1]);
    assert("Modux"@.len() != "ModuxTypes"@.len());
    assert("StarterPlayer"@.len() != "ServerScriptService"@.len());
    assert("StarterPlayer"@.len() != "ReplicatedStorage"@.len());
    assert("ServerScriptService"@.len() != "ReplicatedStorage"@.len());
}

/// The files that are no leaves are apart from each other.
pub proof fn lemma_files_apart(source: Text, rogen: bool, i: int, j: int)
    requires
        0 <= i < j < 5,
    ensures
        paths::parts(file_at(either(source, rogen), i)) != paths::parts(
            file_at(either(source, rogen), j),
        ),
{
    lemma_file_parts(source, rogen, i);
    lemma_file_parts(source, rogen, j);
    lemma_names_differ();
    let a = file_names(rogen, i);
    let b = file_names(rogen, j);
    let none = Seq::<paths::PartView>::empty();
    if side_of_file(i) != side_of_file(j) {
        let n: int = if rogen {
            1
        } else {
            0
        };
        assert(forks(a, b, n));
        lemma_forks(source, a, b, n, none, none);
        assert(paths::parts(source) + paths::named(a) + none =~= paths::parts(source)
            + paths::named(a));
        assert(paths::parts(source) + paths::named(b) + none =~= paths::parts(source)
            + paths::named(b));
    } else {
        assert(a.len() != b.len());
        assert((paths::parts(source) + paths::named(a)).len() != (paths::parts(source)
            + paths::named(b)).len());
    }
}

/// No file but a leaf is in a folder of the leaves, or anywhere below it.
pub proof fn lemma_files_outside(
    source: Text,
    rogen: bool,
    k: int,
    side: Side,
    x: Seq<paths::PartView>,
)
    requires
        0 <= k < 5,
    ensures
        ({
            let dir = types_dir_of(either(source, rogen).types_dirs, side)->0;
            paths::parts(file_at(either(source, rogen), k)) != paths::parts(dir) + x
        }),
        ({
            let dir = types_dir_of(either(source, rogen).types_dirs, side)->0;
            paths::parts(file_at(either(source, rogen), k)).drop_last() != paths::parts(dir)
        }),
{
    lemma_file_parts(source, rogen, k);
    lemma_dir_parts(source, rogen, side);
    lemma_names_differ();
    let a = file_names(rogen, k);
    let b = dir_names(rogen, side);
    let none = Seq::<paths::PartView>::empty();
    let n: int = if rogen || side_of_file(k) != side {
        0
    } else {
        side_names(side).len() as int
    };
    assert(forks(a, b, n));
    lemma_forks(source, a, b, n, none, x);
    let s = paths::parts(source);
    assert(s + paths::named(a) + none =~= s + paths::named(a));
    let fewer = a.drop_last();
    assert(forks(fewer, b, n));
    lemma_forks(source, fewer, b, n, none, none);
    assert(s + paths::named(fewer) + none =~= (s + paths::named(a)).drop_last());
    assert(s + paths::named(b) + none =~= s + paths::named(b));
}

} // verus!
