//! Laws of paths on disk, and of where the files of a project are.

use vstd::prelude::*;

use crate::layout;
use crate::paths::{self, PartView};
use crate::rojo::Side;
use crate::text::{self, Text};

verus! {

/// A path is cut at its slashes. Behind a first piece, an empty piece and a dot
/// are nothing, two dots lead up, and anything else is a name.
pub proof fn law_components_behind(a: Text, piece: Text)
    requires
        a.len() > 0,
        !piece.contains('/'),
    ensures
        ({
            let all = paths::parts(a + "/"@ + piece);
            let before = paths::parts(a);
            let nothing = piece.len() == 0 || piece == "."@;
            &&& nothing ==> all == before
            &&& piece == ".."@ ==> all == before.push(PartView::Up)
            &&& !nothing && piece != ".."@ ==> all == before.push(PartView::Name(piece))
        }),
{
    reveal_strlit("/");
    reveal_strlit(".");
    reveal_strlit("..");
    let s = a.push('/') + piece;
    assert(a + "/"@ + piece =~= s);
    assert forall|i: int| 0 <= i < piece.len() implies piece[i] != '/' by {
        if piece[i] == '/' {
            assert(piece.contains('/'));
        }
    }
    text::lemma_split_plain(piece, '/');
    text::lemma_split_cat(a, '/', piece);
    text::lemma_split_nonempty(a, '/');
    let pieces = text::split(s, '/');
    assert(pieces =~= text::split(a, '/').push(piece));
    assert(pieces.drop_last() =~= text::split(a, '/'));
    assert(s[0] == a[0]);
    let body = paths::body_parts(text::split(a, '/'));
    if a[0] == '/' {
        let root = seq![PartView::Root];
        assert(root + body.push(PartView::Up) =~= (root + body).push(PartView::Up));
        assert(root + body.push(PartView::Name(piece)) =~= (root + body).push(
            PartView::Name(piece),
        ));
    }
}

/// A path of one piece is a dot, two dots or a name. A slash is the root, and
/// nothing is nothing.
pub proof fn law_first_component(piece: Text)
    requires
        !piece.contains('/'),
    ensures
        piece.len() == 0 ==> paths::parts(piece) == Seq::<PartView>::empty(),
        piece == "."@ ==> paths::parts(piece) == seq![PartView::Here],
        piece == ".."@ ==> paths::parts(piece) == seq![PartView::Up],
        piece.len() > 0 && piece != "."@ && piece != ".."@ ==> paths::parts(piece) == seq![
            PartView::Name(piece),
        ],
        paths::parts("/"@) == seq![PartView::Root],
{
    reveal_strlit("/");
    reveal_strlit(".");
    reveal_strlit("..");
    assert forall|i: int| 0 <= i < piece.len() implies piece[i] != '/' by {
        if piece[i] == '/' {
            assert(piece.contains('/'));
        }
    }
    text::lemma_split_plain(piece, '/');
    let one = seq![piece];
    let none = Seq::<Text>::empty();
    assert(one.drop_last() =~= none);
    assert(paths::body_parts(none) == Seq::<PartView>::empty());
    assert(one.last() == piece);
    let empty = Seq::<char>::empty();
    assert("/"@ =~= empty.push('/') + empty);
    text::lemma_split_plain(empty, '/');
    text::lemma_split_cat(empty, '/', empty);
    let two = seq![empty, empty];
    assert(text::split("/"@, '/') =~= two);
    assert(two.drop_last() =~= seq![empty]);
    assert(seq![empty].drop_last() =~= none);
    assert(paths::body_parts(seq![empty]) =~= Seq::<PartView>::empty());
    assert(paths::body_parts(two) =~= Seq::<PartView>::empty());
    assert(paths::parts("/"@) =~= seq![PartView::Root]);
    if piece.len() > 0 {
        assert(paths::parts(piece) =~= paths::body_parts(one));
    }
}

/// A path seen from a folder is below that folder, with a slash between where
/// one is needed. A path from the root is seen from anywhere as it is.
pub proof fn law_path_join(a: Text, b: Text)
    ensures
        paths::path_join(a, "/"@ + b) == "/"@ + b,
        (b.len() == 0 || b[0] != '/') && a.len() > 0 && a.last() != '/' ==> paths::path_join(a, b)
            == a + "/"@ + b,
        (b.len() == 0 || b[0] != '/') ==> paths::path_join(a + "/"@, b) == a + "/"@ + b,
        (b.len() == 0 || b[0] != '/') ==> paths::path_join(Seq::empty(), b) == b,
{
    reveal_strlit("/");
    assert(a + "/"@ =~= a.push('/'));
    assert(("/"@ + b)[0] == '/');
    assert(Seq::<char>::empty() + b =~= b);
}

/// A path lies below a folder just where its components begin with those of the
/// folder. Seen from there it is the rest; seen from another folder it is as it
/// is.
pub proof fn law_below(path: Text, base: Text)
    ensures
        paths::under(path, base) <==> paths::parts(base).len() <= paths::parts(path).len()
            && paths::parts(path).take(paths::parts(base).len() as int) == paths::parts(base),
        !paths::under(path, base) ==> paths::relative(path, base) == path,
        paths::under(path, base) ==> paths::parts(
            paths::path_join(base, paths::relative(path, base)),
        ) == paths::parts(path),
        paths::shown(base, path) == text::slashes(paths::relative(path, base)),
{
    if paths::under(path, base) {
        paths::law_relative(path, base);
    }
    let n = paths::parts(base).len() as int;
    if n <= paths::parts(path).len() {
        assert(paths::parts(path).take(n) =~= paths::parts(path).subrange(0, n));
    }
}

/// White space is what Unicode says it is.
pub proof fn law_white_space(c: char)
    ensures
        text::is_white(c) <==> {
            ||| 0x9 <= (c as u32) <= 0xd
            ||| (c as u32) == 0x20
            ||| (c as u32) == 0x85
            ||| (c as u32) == 0xa0
            ||| (c as u32) == 0x1680
            ||| 0x2000 <= (c as u32) <= 0x200a
            ||| 0x2028 <= (c as u32) <= 0x2029
            ||| (c as u32) == 0x202f
            ||| (c as u32) == 0x205f
            ||| (c as u32) == 0x3000
        },
{
}

/// The files of a project under a project file: a Manifest and a module list for
/// either side, the list of the libraries, and where these come from.
pub proof fn law_files_of_folders(source: Text)
    ensures
        ({
            let l = layout::rogen_layout(source);
            &&& l.targets.len() == 2 && l.module_lists.len() == 2 && l.types_dirs.len() == 3
            &&& l.targets[0].0 == Side::Client && l.targets[1].0 == Side::Server
            &&& l.module_lists[0].0 == Side::Client && l.module_lists[1].0 == Side::Server
            &&& is_at(l.targets[0].1, source, seq!["Modux"@, "client"@, "Manifest"@, "init.luau"@])
            &&& is_at(l.targets[1].1, source, seq!["Modux"@, "server"@, "Manifest"@, "init.luau"@])
            &&& is_at(l.module_lists[0].1, source, seq!["Modux"@, "client"@, "Modules.luau"@])
            &&& is_at(l.module_lists[1].1, source, seq!["Modux"@, "server"@, "Modules.luau"@])
            &&& is_at(l.libs_target, source, seq!["Modux"@, "shared"@, "Libs.luau"@])
            &&& is_at(l.libs_dir, source, seq!["Libs"@])
        }),
{
    layout::lemma_file_parts(source, true, 0);
    layout::lemma_file_parts(source, true, 1);
    layout::lemma_file_parts(source, true, 2);
    layout::lemma_file_parts(source, true, 3);
    layout::lemma_file_parts(source, true, 4);
    lemma_four(true);
    lemma_libs(source);
}

/// The files of a project where the disk is the tree.
pub proof fn law_files_of_the_tree(source: Text)
    ensures
        ({
            let l = layout::mirror_layout(source);
            let client = seq!["StarterPlayer"@, "StarterPlayerScripts"@, "client"@, "Modux"@];
            let server = seq!["ServerScriptService"@, "server"@, "Modux"@];
            let shared = seq!["ReplicatedStorage"@, "shared"@];
            &&& l.targets.len() == 2 && l.module_lists.len() == 2 && l.types_dirs.len() == 3
            &&& l.targets[0].0 == Side::Client && l.targets[1].0 == Side::Server
            &&& l.module_lists[0].0 == Side::Client && l.module_lists[1].0 == Side::Server
            &&& is_at(l.targets[0].1, source, client + seq!["Manifest"@, "init.luau"@])
            &&& is_at(l.targets[1].1, source, server + seq!["Manifest"@, "init.luau"@])
            &&& is_at(l.module_lists[0].1, source, client + seq!["Modules.luau"@])
            &&& is_at(l.module_lists[1].1, source, server + seq!["Modules.luau"@])
            &&& is_at(l.libs_target, source, shared + seq!["Modux"@, "Libs.luau"@])
            &&& is_at(l.libs_dir, source, shared + seq!["Libs"@])
        }),
{
    layout::lemma_file_parts(source, false, 0);
    layout::lemma_file_parts(source, false, 1);
    layout::lemma_file_parts(source, false, 2);
    layout::lemma_file_parts(source, false, 3);
    layout::lemma_file_parts(source, false, 4);
    lemma_four(false);
    layout::lemma_side_folder(source, Side::Shared);
    let shared = paths::path_join(source, "ReplicatedStorage/shared"@);
    lemma_libs(shared);
    let names = seq!["ReplicatedStorage"@, "shared"@];
    assert(paths::parts(source) + paths::named(names) + paths::named(seq!["Libs"@])
        =~= paths::parts(source) + paths::named(names + seq!["Libs"@]));
}

/// The leaves of a side have a folder of their own.
pub proof fn law_folders_of_leaves(source: Text)
    ensures
        ({
            let a = layout::rogen_layout(source).types_dirs;
            let b = layout::mirror_layout(source).types_dirs;
            &&& leaves_at(a, Side::Client, source, seq!["ModuxTypes"@, "client"@])
            &&& leaves_at(a, Side::Server, source, seq!["ModuxTypes"@, "server"@])
            &&& leaves_at(a, Side::Shared, source, seq!["ModuxTypes"@, "shared"@])
            &&& leaves_at(
                b,
                Side::Client,
                source,
                seq!["StarterPlayer"@, "StarterPlayerScripts"@, "client"@, "ModuxTypes"@],
            )
            &&& leaves_at(
                b,
                Side::Server,
                source,
                seq!["ServerScriptService"@, "server"@, "ModuxTypes"@],
            )
            &&& leaves_at(
                b,
                Side::Shared,
                source,
                seq!["ReplicatedStorage"@, "shared"@, "ModuxTypes"@],
            )
        }),
{
    layout::lemma_dir_parts(source, true, Side::Client);
    layout::lemma_dir_parts(source, true, Side::Server);
    layout::lemma_dir_parts(source, true, Side::Shared);
    layout::lemma_dir_parts(source, false, Side::Client);
    layout::lemma_dir_parts(source, false, Side::Server);
    layout::lemma_dir_parts(source, false, Side::Shared);
    assert(layout::dir_names(false, Side::Client) =~= seq![
        "StarterPlayer"@,
        "StarterPlayerScripts"@,
        "client"@,
        "ModuxTypes"@,
    ]);
    assert(layout::dir_names(false, Side::Server) =~= seq![
        "ServerScriptService"@,
        "server"@,
        "ModuxTypes"@,
    ]);
    assert(layout::dir_names(false, Side::Shared) =~= seq![
        "ReplicatedStorage"@,
        "shared"@,
        "ModuxTypes"@,
    ]);
}

/// A path leads where these names below the source folder do.
pub open spec fn is_at(path: Text, source: Text, names: Seq<Text>) -> bool {
    paths::parts(path) == paths::parts(source) + paths::named(names)
}

/// The folder of a side's leaves leads where these names do.
pub open spec fn leaves_at(
    dirs: Seq<(Side, Text)>,
    side: Side,
    source: Text,
    names: Seq<Text>,
) -> bool {
    layout::types_dir_of(dirs, side) matches Some(dir) && is_at(dir, source, names)
}

proof fn lemma_four(rogen: bool)
    ensures
        rogen ==> {
            &&& layout::file_names(true, 0) == seq![
                "Modux"@,
                "client"@,
                "Manifest"@,
                "init.luau"@,
            ]
            &&& layout::file_names(true, 1) == seq![
                "Modux"@,
                "server"@,
                "Manifest"@,
                "init.luau"@,
            ]
            &&& layout::file_names(true, 2) == seq!["Modux"@, "client"@, "Modules.luau"@]
            &&& layout::file_names(true, 3) == seq!["Modux"@, "server"@, "Modules.luau"@]
            &&& layout::file_names(true, 4) == seq!["Modux"@, "shared"@, "Libs.luau"@]
        },
        !rogen ==> {
            let client = seq!["StarterPlayer"@, "StarterPlayerScripts"@, "client"@, "Modux"@];
            let server = seq!["ServerScriptService"@, "server"@, "Modux"@];
            let shared = seq!["ReplicatedStorage"@, "shared"@];
            &&& layout::file_names(false, 0) == client + seq!["Manifest"@, "init.luau"@]
            &&& layout::file_names(false, 1) == server + seq!["Manifest"@, "init.luau"@]
            &&& layout::file_names(false, 2) == client + seq!["Modules.luau"@]
            &&& layout::file_names(false, 3) == server + seq!["Modules.luau"@]
            &&& layout::file_names(false, 4) == shared + seq!["Modux"@, "Libs.luau"@]
        },
{
}

proof fn lemma_libs(folder: Text)
    ensures
        is_at(paths::path_join(folder, "Libs"@), folder, seq!["Libs"@]),
{
    reveal_strlit("Libs");
    reveal_strlit(".");
    reveal_strlit("..");
    let names = seq!["Libs"@];
    assert(names[0] == "Libs"@);
    assert(!"Libs"@.contains('/'));
    assert(paths::fits(PartView::Name(names[0]), false));
    paths::lemma_below_names(folder, names);
    assert(paths::slashed(names) == "Libs"@);
}

} // verus!
