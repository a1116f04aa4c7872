//! A project file and a sourcemap of the same tree.

use vstd::prelude::*;

use crate::json::{self, Tree};
use crate::rojo;
use crate::table::{self, Rows};
use crate::text::{self, Text};

verus! {

/// The names that lead to the instance of a file.
pub open spec fn trail_at(entries: Rows<Seq<Text>>, rel: Text) -> Option<Seq<Text>> {
    match rojo::longest(entries, rel) {
        Some((disk, trail)) => Some(trail + rojo::names_of(rel.skip(disk.len() as int))),
        None => None,
    }
}

/// An item of `filePaths` is this file of code.
pub open spec fn is_file(item: Tree, disk: Text) -> bool {
    match item {
        Tree::Text(t) => rojo::disk_of(t) == disk && rojo::is_code(disk),
        _ => false,
    }
}

/// Some node of a sourcemap, from this one down, lists the file.
pub open spec fn lists(node: Tree, disk: Text) -> bool
    decreases node, 0nat,
{
    match node {
        Tree::Object(o) => {
            let at = json::place(o, "children"@);
            &&& json::text_member(o, "name"@) is Some
            &&& {
                ||| match json::member(o, "filePaths"@) {
                    Some(Tree::List(files)) => exists|i: int|
                        0 <= i < files.len() && is_file(#[trigger] files[i], disk),
                    _ => false,
                }
                ||| 0 <= at < o.len() && match o[at].1 {
                    Tree::List(children) => any_lists(children, children.len(), disk),
                    _ => false,
                }
            }
        },
        _ => false,
    }
}

/// One of the first `n` children lists the file.
pub open spec fn any_lists(children: Seq<Tree>, n: nat, disk: Text) -> bool
    decreases children, n,
{
    if n == 0 || n > children.len() {
        false
    } else {
        any_lists(children, (n - 1) as nat, disk) || lists(children[n - 1], disk)
    }
}

/// Every file of code that a sourcemap lists, from this node down, stands at the
/// node that these entries make of the file.
pub open spec fn mirrors(node: Tree, trail: Seq<Text>, entries: Rows<Seq<Text>>) -> bool
    decreases node, 0nat,
{
    match node {
        Tree::Object(o) => match json::text_member(o, "name"@) {
            Some(name) => {
                let below = rojo::trail_of(o, name, trail);
                let at = json::place(o, "children"@);
                &&& match json::member(o, "filePaths"@) {
                    Some(Tree::List(files)) => all_stand(files, below, entries),
                    _ => true,
                }
                &&& 0 <= at < o.len() ==> match o[at].1 {
                    Tree::List(children) => all_mirror(children, children.len(), below, entries),
                    _ => true,
                }
            },
            None => true,
        },
        _ => true,
    }
}

/// The first `n` children do.
pub open spec fn all_mirror(
    children: Seq<Tree>,
    n: nat,
    trail: Seq<Text>,
    entries: Rows<Seq<Text>>,
) -> bool
    decreases children, n,
{
    n == 0 || n > children.len() || {
        &&& all_mirror(children, (n - 1) as nat, trail, entries)
        &&& mirrors(children[n - 1], trail, entries)
    }
}

/// The files of code among these stand at this trail.
pub open spec fn all_stand(files: Seq<Tree>, trail: Seq<Text>, entries: Rows<Seq<Text>>) -> bool {
    forall|i: int, disk: Text|
        #![trigger is_file(files[i], disk)]
        0 <= i < files.len() && is_file(files[i], disk) ==> trail_at(entries, disk) == Some(trail)
}

/// A row of a sourcemap says what the entries say of a file that it lists: of the
/// file itself, or of the `init` of the folder that the row is for.
pub open spec fn agrees(document: Tree, entries: Rows<Seq<Text>>, row: (Text, Seq<Text>)) -> bool {
    ||| lists(document, row.0) && trail_at(entries, row.0) == Some(row.1)
    ||| lists(document, row.0 + "/init.luau"@) && trail_at(entries, row.0 + "/init.luau"@) == Some(
        row.1,
    )
    ||| lists(document, row.0 + "/init.lua"@) && trail_at(entries, row.0 + "/init.lua"@) == Some(
        row.1,
    )
}

/// Rows in order, each of which agrees.
pub open spec fn all_agree(
    document: Tree,
    entries: Rows<Seq<Text>>,
    rows: Rows<Seq<Text>>,
) -> bool {
    &&& table::sorted(rows)
    &&& forall|e: (Text, Seq<Text>)| #[trigger] rows.contains(e) ==> agrees(document, entries, e)
}

/// No key is lost from one to the other.
pub open spec fn keeps_keys(before: Rows<Seq<Text>>, after: Rows<Seq<Text>>) -> bool {
    forall|k: Text| #[trigger] table::get(before, k) is Some ==> table::get(after, k) is Some
}

proof fn lemma_put_agrees(
    document: Tree,
    entries: Rows<Seq<Text>>,
    rows: Rows<Seq<Text>>,
    disk: Text,
    trail: Seq<Text>,
)
    requires
        all_agree(document, entries, rows),
        agrees(document, entries, (disk, trail)),
    ensures
        all_agree(document, entries, table::put(rows, disk, trail)),
        keeps_keys(rows, table::put(rows, disk, trail)),
        table::get(table::put(rows, disk, trail), disk) is Some,
{
    let new = table::put(rows, disk, trail);
    table::law_put_sorted(rows, disk, trail);
    assert forall|e: (Text, Seq<Text>)| #[trigger] new.contains(e) implies agrees(
        document,
        entries,
        e,
    ) by {
        table::lemma_put_rows(rows, disk, trail, e);
    }
    assert forall|k: Text| #[trigger] table::get(rows, k) is Some implies table::get(
        new,
        k,
    ) is Some by {
        table::law_get_put(rows, disk, trail, k);
    }
    table::law_get_put(rows, disk, trail, disk);
}

proof fn lemma_filed_agrees(
    document: Tree,
    entries: Rows<Seq<Text>>,
    file: Tree,
    trail: Seq<Text>,
    out: Rows<Seq<Text>>,
)
    requires
        all_agree(document, entries, out),
        forall|disk: Text| #[trigger]
            is_file(file, disk) ==> lists(document, disk) && trail_at(entries, disk) == Some(trail),
    ensures
        all_agree(document, entries, rojo::filed(file, trail, out)),
        keeps_keys(out, rojo::filed(file, trail, out)),
        forall|disk: Text| #[trigger]
            is_file(file, disk) ==> table::get(rojo::filed(file, trail, out), disk) is Some,
{
    if let Tree::Text(t) = file {
        let disk = rojo::disk_of(t);
        if rojo::is_code(disk) {
            assert(is_file(file, disk));
            lemma_put_agrees(document, entries, out, disk, trail);
            let own = table::put(out, disk, trail);
            if let Some(dir) = rojo::init_folder(disk) {
                match text::without_suffix(disk, "/init.luau"@) {
                    Some(_) => assert(dir + "/init.luau"@ =~= disk),
                    None => assert(dir + "/init.lua"@ =~= disk),
                }
                lemma_put_agrees(document, entries, own, dir, trail);
            }
        }
    }
}

proof fn lemma_filed_all_agree(
    document: Tree,
    entries: Rows<Seq<Text>>,
    files: Seq<Tree>,
    trail: Seq<Text>,
    out: Rows<Seq<Text>>,
)
    requires
        all_agree(document, entries, out),
        all_stand(files, trail, entries),
        forall|i: int, disk: Text|
            #![trigger is_file(files[i], disk)]
            0 <= i < files.len() && is_file(files[i], disk) ==> lists(document, disk),
    ensures
        all_agree(document, entries, rojo::filed_all(files, trail, out)),
        keeps_keys(out, rojo::filed_all(files, trail, out)),
        forall|i: int, disk: Text|
            #![trigger is_file(files[i], disk)]
            0 <= i < files.len() && is_file(files[i], disk) ==> table::get(
                rojo::filed_all(files, trail, out),
                disk,
            ) is Some,
    decreases files.len(),
{
    if files.len() > 0 {
        let rest = files.drop_last();
        assert forall|i: int, disk: Text|
            #![trigger is_file(rest[i], disk)]
            0 <= i < rest.len() && is_file(rest[i], disk) implies trail_at(entries, disk) == Some(
            trail,
        ) && lists(document, disk) by {
            assert(is_file(files[i], disk));
        }
        lemma_filed_all_agree(document, entries, rest, trail, out);
        let some = rojo::filed_all(rest, trail, out);
        assert forall|disk: Text| #[trigger] is_file(files.last(), disk) implies lists(
            document,
            disk,
        ) && trail_at(entries, disk) == Some(trail) by {
            assert(is_file(files[files.len() - 1], disk));
        }
        lemma_filed_agrees(document, entries, files.last(), trail, some);
        let all = rojo::filed_all(files, trail, out);
        assert forall|i: int, disk: Text|
            #![trigger is_file(files[i], disk)]
            0 <= i < files.len() && is_file(files[i], disk) implies table::get(all, disk) is Some by {
            if i < rest.len() {
                assert(is_file(rest[i], disk));
                assert(table::get(some, disk) is Some);
            } else {
                assert(is_file(files.last(), disk));
            }
        }
        assert forall|k: Text| #[trigger] table::get(out, k) is Some implies table::get(
            all,
            k,
        ) is Some by {
            assert(table::get(some, k) is Some);
        }
    }
}

proof fn lemma_gathered_agrees(
    document: Tree,
    entries: Rows<Seq<Text>>,
    node: Tree,
    trail: Seq<Text>,
    out: Rows<Seq<Text>>,
)
    requires
        all_agree(document, entries, out),
        mirrors(node, trail, entries),
        forall|disk: Text| #[trigger] lists(node, disk) ==> lists(document, disk),
    ensures
        all_agree(document, entries, rojo::gathered(node, trail, out)),
        keeps_keys(out, rojo::gathered(node, trail, out)),
        forall|disk: Text| #[trigger]
            lists(node, disk) ==> table::get(rojo::gathered(node, trail, out), disk) is Some,
    decreases node, 0nat,
{
    if let Tree::Object(o) = node {
        if let Some(name) = json::text_member(o, "name"@) {
            let below = rojo::trail_of(o, name, trail);
            let own = match json::member(o, "filePaths"@) {
                Some(Tree::List(files)) => rojo::filed_all(files, below, out),
                _ => out,
            };
            if let Some(Tree::List(files)) = json::member(o, "filePaths"@) {
                assert forall|i: int, disk: Text|
                    #![trigger is_file(files[i], disk)]
                    0 <= i < files.len() && is_file(files[i], disk) implies lists(
                    document,
                    disk,
                ) by {
                    assert(lists(node, disk));
                }
                lemma_filed_all_agree(document, entries, files, below, out);
            }
            let at = json::place(o, "children"@);
            if 0 <= at < o.len() {
                if let Tree::List(children) = o[at].1 {
                    assert forall|disk: Text| #[trigger]
                        any_lists(children, children.len(), disk) implies lists(document, disk) by {
                        assert(lists(node, disk));
                    }
                    lemma_gathered_all_agree(
                        document,
                        entries,
                        children,
                        children.len(),
                        below,
                        own,
                    );
                }
            }
            let all = rojo::gathered(node, trail, out);
            assert forall|k: Text| #[trigger] table::get(out, k) is Some implies table::get(
                all,
                k,
            ) is Some by {
                assert(table::get(own, k) is Some);
            }
            assert forall|disk: Text| #[trigger] lists(node, disk) implies table::get(
                all,
                disk,
            ) is Some by {
                if let Some(Tree::List(files)) = json::member(o, "filePaths"@) {
                    if exists|i: int| 0 <= i < files.len() && is_file(#[trigger] files[i], disk) {
                        let i = choose|i: int|
                            0 <= i < files.len() && is_file(#[trigger] files[i], disk);
                        assert(is_file(files[i], disk));
                        assert(table::get(own, disk) is Some);
                        assert(table::get(all, disk) is Some);
                    }
                }
                if 0 <= at < o.len() {
                    if let Tree::List(children) = o[at].1 {
                        if any_lists(children, children.len(), disk) {
                            assert(table::get(all, disk) is Some);
                        }
                    }
                }
            }
        }
    }
}

proof fn lemma_gathered_all_agree(
    document: Tree,
    entries: Rows<Seq<Text>>,
    children: Seq<Tree>,
    n: nat,
    trail: Seq<Text>,
    out: Rows<Seq<Text>>,
)
    requires
        all_agree(document, entries, out),
        all_mirror(children, n, trail, entries),
        n <= children.len(),
        forall|disk: Text| #[trigger] any_lists(children, n, disk) ==> lists(document, disk),
    ensures
        all_agree(document, entries, rojo::gathered_all(children, n, trail, out)),
        keeps_keys(out, rojo::gathered_all(children, n, trail, out)),
        forall|disk: Text| #[trigger]
            any_lists(children, n, disk) ==> table::get(
                rojo::gathered_all(children, n, trail, out),
                disk,
            ) is Some,
    decreases children, n,
{
    if n > 0 {
        let fewer = (n - 1) as nat;
        assert forall|disk: Text| #[trigger] any_lists(children, fewer, disk) implies lists(
            document,
            disk,
        ) by {
            assert(any_lists(children, n, disk));
        }
        lemma_gathered_all_agree(document, entries, children, fewer, trail, out);
        let some = rojo::gathered_all(children, fewer, trail, out);
        assert forall|disk: Text| #[trigger] lists(children[n - 1], disk) implies lists(
            document,
            disk,
        ) by {
            assert(any_lists(children, n, disk));
        }
        lemma_gathered_agrees(document, entries, children[n - 1], trail, some);
        let all = rojo::gathered_all(children, n, trail, out);
        assert forall|k: Text| #[trigger] table::get(out, k) is Some implies table::get(
            all,
            k,
        ) is Some by {
            assert(table::get(some, k) is Some);
        }
        assert forall|disk: Text| #[trigger] any_lists(children, n, disk) implies table::get(
            all,
            disk,
        ) is Some by {
            if any_lists(children, fewer, disk) {
                assert(table::get(some, disk) is Some);
            } else {
                assert(lists(children[n - 1], disk));
            }
        }
    }
}

/// The names that a path writes between its slashes.
pub open spec fn between(path: Text) -> Seq<Text> {
    text::split(path, '/').filter(|p: Text| p.len() > 0)
}

/// The instances below a folder are named as they are from the folder itself.
proof fn lemma_names_below(dir: Text, rest: Text)
    requires
        rest.len() > 0,
        rest.last() != '/',
    ensures
        rojo::names_of(dir.push('/') + rest) == between(dir) + rojo::names_of(rest),
{
    reveal(Seq::filter);
    let keep = |p: Text| p.len() > 0;
    text::lemma_split_cat(dir, '/', rest);
    rojo::lemma_filter_cat(text::split(dir, '/'), text::split(rest, '/'));
    text::lemma_split_nonempty(rest.drop_last(), '/');
    let last = text::split(rest, '/').last();
    assert(last.len() > 0);
    let tail = text::split(rest, '/').filter(keep);
    assert(tail.len() > 0);
    let all = between(dir) + tail;
    assert(all.last() == tail.last());
    assert(all.drop_last() =~= between(dir) + tail.drop_last());
    if let Some(name) = rojo::script_name(tail.last()) {
        assert(all.drop_last().push(name) =~= between(dir) + tail.drop_last().push(name));
    }
}

/// The `init` of a folder is the folder.
proof fn lemma_init_is_its_folder(dir: Text)
    ensures
        rojo::names_of(dir + "/init.luau"@) == between(dir),
        rojo::names_of(dir + "/init.lua"@) == between(dir),
{
    reveal_strlit("/init.luau");
    reveal_strlit("/init.lua");
    reveal_strlit("init.luau");
    reveal_strlit("init.lua");
    reveal_strlit("init");
    reveal_strlit(".luau");
    reveal_strlit(".lua");
    reveal_strlit(".client");
    reveal_strlit(".server");
    let new = "init.luau"@;
    let old = "init.lua"@;
    assert(dir + "/init.luau"@ =~= dir.push('/') + new);
    assert(dir + "/init.lua"@ =~= dir.push('/') + old);
    lemma_names_below(dir, new);
    lemma_names_below(dir, old);
    text::lemma_split_plain(new, '/');
    text::lemma_split_plain(old, '/');
    rojo::lemma_filter_one(new);
    rojo::lemma_filter_one(old);
    assert(new.subrange(4, 9) =~= ".luau"@);
    assert(new.take(4) =~= "init"@);
    assert(old.subrange(4, 8) =~= ".lua"@);
    assert(old.take(4) =~= "init"@);
    assert(old.subrange(3, 8)[0] == 't');
    assert(rojo::script_name(new) == Some("init"@));
    assert(rojo::script_name(old) == Some("init"@));
    assert(rojo::names_of(new) =~= Seq::empty());
    assert(rojo::names_of(old) =~= Seq::empty());
    assert(between(dir) + Seq::<Text>::empty() =~= between(dir));
}

/// What speaks for the `init` of a folder speaks for the folder.
proof fn lemma_above_init(dir: Text, init: Text, disk: Text)
    requires
        init == "init.luau"@ || init == "init.lua"@,
    ensures
        rojo::above(dir.push('/') + init, disk) <==> rojo::above(dir, disk) || disk == dir.push('/') + init,
{
    reveal_strlit("init.luau");
    reveal_strlit("init.lua");
    let file = dir.push('/') + init;
    let p = disk.push('/');
    if rojo::above(dir, disk) {
        rojo::lemma_above_deeper(dir, init, disk);
    } else if rojo::above(file, disk) && disk != file {
        assert(file.subrange(0, p.len() as int) == p);
        assert(file[disk.len() as int] == '/') by {
            assert(p[disk.len() as int] == '/');
        }
        if disk.len() > dir.len() {
            assert(init[disk.len() - dir.len() - 1] == '/');
        } else if disk.len() == dir.len() {
            assert(disk =~= dir) by {
                assert forall|i: int| 0 <= i < disk.len() implies disk[i] == dir[i] by {
                    assert(p[i] == file[i]);
                }
            }
        } else {
            assert(dir.subrange(0, p.len() as int) =~= p) by {
                assert forall|i: int| 0 <= i < p.len() implies p[i] == dir[i] by {
                    assert(p[i] == file[i]);
                }
            }
        }
    }
}

/// The two maps are of the same path and the same side.
pub open spec fn same_place(a: Rows<Seq<Text>>, b: Rows<Seq<Text>>, file: Text) -> bool {
    &&& rojo::path_of(a, file) is Ok
    &&& rojo::path_of(a, file) == rojo::path_of(b, file)
    &&& rojo::side_at(a, file) == rojo::side_at(b, file)
}

/// A project file and a sourcemap of the same tree put every file that the
/// sourcemap lists at the same path and on the same side. (A path is a file or a
/// folder: one that is listed is not the folder of an `init` that is listed.)
pub proof fn law_sourcemap_agrees_on_what_it_lists(
    project_file: Text,
    project: Tree,
    sourcemap_file: Text,
    sourcemap: Tree,
    file: Text,
)
    requires
        rojo::project_entries(project_file, project) is Ok,
        mirrors(sourcemap, Seq::empty(), rojo::project_entries(project_file, project)->Ok_0),
        lists(sourcemap, text::slashes(file)),
        !lists(sourcemap, text::slashes(file) + "/init.luau"@),
        !lists(sourcemap, text::slashes(file) + "/init.lua"@),
    ensures
        rojo::sourcemap_entries(sourcemap_file, sourcemap) is Ok,
        same_place(
            rojo::project_entries(project_file, project)->Ok_0,
            rojo::sourcemap_entries(sourcemap_file, sourcemap)->Ok_0,
            file,
        ),
{
    let entries = rojo::project_entries(project_file, project)->Ok_0;
    let rel = text::slashes(file);
    let rows = rojo::gathered(sourcemap, Seq::empty(), Seq::empty());
    lemma_gathered_agrees(sourcemap, entries, sourcemap, Seq::empty(), Seq::empty());
    table::lemma_get_none(rows, rel);
    let i = choose|i: int| 0 <= i < rows.len() && (#[trigger] rows[i]).0 == rel;
    assert(rows.contains(rows[i]));
    rojo::law_exact_entry(rows, file, i);
}

/// They do so too of a file that the sourcemap does not list, but that lies in the
/// folder of an `init` that it lists, such as a leaf that was not written yet.
/// (Unless the project file has a place of its own for the `init`, or for the
/// file or a folder between the two.)
#[verifier::rlimit(30)]
pub proof fn law_sourcemap_agrees_below_an_init(
    project_file: Text,
    project: Tree,
    sourcemap_file: Text,
    sourcemap: Tree,
    dir: Text,
    file: Text,
)
    requires
        rojo::project_entries(project_file, project) is Ok,
        rojo::sourcemap_entries(sourcemap_file, sourcemap) is Ok,
        mirrors(sourcemap, Seq::empty(), rojo::project_entries(project_file, project)->Ok_0),
        !lists(sourcemap, dir),
        match rojo::longest(
            rojo::sourcemap_entries(sourcemap_file, sourcemap)->Ok_0,
            text::slashes(file),
        ) {
            Some(nearest) => nearest.0 == dir,
            None => false,
        },
        dir != text::slashes(file),
        text::slashes(file).last() != '/',
        forall|i: int|
            #![trigger rojo::project_entries(project_file, project)->Ok_0[i]]
            0 <= i < rojo::project_entries(project_file, project)->Ok_0.len() ==> {
                let disk = rojo::project_entries(project_file, project)->Ok_0[i].0;
                rojo::above(text::slashes(file), disk) || disk == dir + "/init.luau"@ || disk == dir
                    + "/init.lua"@ ==> rojo::above(dir, disk)
            },
    ensures
        same_place(
            rojo::project_entries(project_file, project)->Ok_0,
            rojo::sourcemap_entries(sourcemap_file, sourcemap)->Ok_0,
            file,
        ),
{
    reveal_strlit("/init.luau");
    reveal_strlit("/init.lua");
    reveal_strlit("init.luau");
    reveal_strlit("init.lua");
    let entries = rojo::project_entries(project_file, project)->Ok_0;
    let rel = text::slashes(file);
    let rows = rojo::gathered(sourcemap, Seq::empty(), Seq::empty());
    lemma_gathered_agrees(sourcemap, entries, sourcemap, Seq::empty(), Seq::empty());
    rojo::law_most_specific(rows, rel);
    let row = rojo::longest(rows, rel)->0;
    let t = row.1;
    assert(rows.contains(row));
    assert(agrees(sourcemap, entries, row));
    let rest = rel.skip(dir.len() as int + 1);
    assert(dir.push('/').is_prefix_of(rel));
    assert(rel =~= dir.push('/') + rest);
    if rest.len() == 0 {
        assert(rel.last() == '/');
    }
    assert(rest.last() == rel.last());
    let init = if lists(sourcemap, dir + "/init.luau"@) && trail_at(entries, dir + "/init.luau"@)
        == Some(t) {
        "init.luau"@
    } else {
        "init.lua"@
    };
    let listed = dir.push('/') + init;
    assert(dir + "/init.luau"@ =~= dir.push('/') + "init.luau"@);
    assert(dir + "/init.lua"@ =~= dir.push('/') + "init.lua"@);
    assert(trail_at(entries, listed) == Some(t));
    assert forall|i: int| 0 <= i < entries.len() implies rojo::above(rel, (#[trigger] entries[i]).0)
        == rojo::above(listed, entries[i].0) by {
        lemma_above_init(dir, init, entries[i].0);
        if rojo::above(dir, entries[i].0) {
            rojo::lemma_above_deeper(dir, rest, entries[i].0);
        }
    }
    rojo::lemma_longest_same(entries, rel, listed);
    rojo::law_most_specific(entries, rel);
    let (disk, trail) = rojo::longest(entries, rel)->0;
    let k = choose|k: int| 0 <= k < entries.len() && entries[k] == (disk, trail);
    assert(rojo::above(rel, entries[k].0));
    assert(rojo::above(dir, disk));
    rojo::lemma_above_deeper(dir, rest, disk);
    rojo::lemma_above_deeper(dir, init, disk);
    let over = dir.skip(disk.len() as int);
    lemma_names_below(over, rest);
    lemma_init_is_its_folder(over);
    assert(over + "/init.luau"@ =~= over.push('/') + "init.luau"@);
    assert(over + "/init.lua"@ =~= over.push('/') + "init.lua"@);
    assert(t == trail + between(over));
    let none = Seq::<char>::empty();
    assert(rel.skip(dir.len() as int) =~= none.push('/') + rest);
    lemma_names_below(none, rest);
    assert(between(none) =~= Seq::empty()) by {
        let keep = |p: Text| p.len() > 0;
        assert(text::split(none, '/') =~= seq![none]);
        seq![none].lemma_all_neg_filter_empty(keep);
    }
    assert(Seq::<Text>::empty() + rojo::names_of(rest) =~= rojo::names_of(rest));
    assert(trail + (between(over) + rojo::names_of(rest)) =~= t + rojo::names_of(rest));
}

/// An item of `filePaths` is a file of code in a folder, of a script of this name.
pub open spec fn stands_in(item: Tree, dir: Text, name: Text) -> bool {
    match item {
        Tree::Text(t) => rojo::is_code(rojo::disk_of(t)) ==> exists|file: Text|
            rojo::disk_of(t) == dir.push('/') + file && file.len() > 0 && !file.contains('/')
                && #[trigger] rojo::script_name(file) == Some(name),
        _ => true,
    }
}

/// A node without children that is a file of a folder.
pub open spec fn is_script_in(o: Seq<(Text, Tree)>, dir: Text, name: Text) -> bool {
    &&& name != "init"@
    &&& match json::member(o, "filePaths"@) {
        Some(Tree::List(files)) => forall|i: int|
            0 <= i < files.len() ==> stands_in(#[trigger] files[i], dir, name),
        _ => true,
    }
    &&& !(json::member(o, "children"@) matches Some(Tree::List(_)))
}

/// A node of the tree that a project file with these entries makes, under
/// `trail`: the node of an entry, with what its folder holds, or one between the
/// root and an entry.
pub open spec fn built(node: Tree, trail: Seq<Text>, entries: Rows<Seq<Text>>) -> bool
    decreases node, 2nat,
{
    ||| comes_from(node, trail, None, entries)
    ||| exists|k: int|
        0 <= k < entries.len() && ends_at(node, trail, (#[trigger] entries[k]).1) && comes_from(
            node,
            trail,
            Some(entries[k].0),
            entries,
        )
}

/// The node has this trail, which is not that of the root.
pub open spec fn ends_at(node: Tree, trail: Seq<Text>, below: Seq<Text>) -> bool {
    match node {
        Tree::Object(o) => match json::text_member(o, "name"@) {
            Some(name) => rojo::trail_of(o, name, trail) == below && below.len() > 0,
            None => true,
        },
        _ => true,
    }
}

/// A node that is made of a folder on disk, or of none: its files are the `init`
/// of the folder, and its children come from the folder or have entries of their
/// own.
pub open spec fn comes_from(
    node: Tree,
    trail: Seq<Text>,
    dir: Option<Text>,
    entries: Rows<Seq<Text>>,
) -> bool
    decreases node, 1nat,
{
    match node {
        Tree::Object(o) => match json::text_member(o, "name"@) {
            Some(name) => {
                let below = rojo::trail_of(o, name, trail);
                let at = json::place(o, "children"@);
                &&& match json::member(o, "filePaths"@) {
                    Some(Tree::List(files)) => forall|i: int|
                        0 <= i < files.len() ==> match dir {
                            Some(d) => stands_in(#[trigger] files[i], d, "init"@),
                            None => forall|disk: Text| !is_file(files[i], disk),
                        },
                    _ => true,
                }
                &&& 0 <= at < o.len() ==> match o[at].1 {
                    Tree::List(children) => all_come_from(
                        children,
                        children.len(),
                        below,
                        dir,
                        entries,
                    ),
                    _ => true,
                }
            },
            None => true,
        },
        _ => true,
    }
}

/// The first `n` children do.
pub open spec fn all_come_from(
    children: Seq<Tree>,
    n: nat,
    trail: Seq<Text>,
    dir: Option<Text>,
    entries: Rows<Seq<Text>>,
) -> bool
    decreases children, n,
{
    n == 0 || n > children.len() || {
        &&& all_come_from(children, (n - 1) as nat, trail, dir, entries)
        &&& {
            ||| built(children[n - 1], trail, entries)
            ||| match dir {
                Some(d) => lies_in(children[n - 1], trail, d, entries),
                None => false,
            }
        }
    }
}

/// A node that a folder on disk holds: a folder of its name, or a file.
pub open spec fn lies_in(node: Tree, trail: Seq<Text>, dir: Text, entries: Rows<Seq<Text>>) -> bool
    decreases node, 2nat,
{
    match node {
        Tree::Object(o) => match json::text_member(o, "name"@) {
            Some(name) => {
                &&& name.len() > 0 && !name.contains('/')
                &&& {
                    ||| comes_from(node, trail, Some(dir.push('/') + name), entries)
                    ||| is_script_in(o, dir, name)
                }
            },
            None => true,
        },
        _ => true,
    }
}

/// No entry is in the folder of another.
pub open spec fn entries_apart(entries: Rows<Seq<Text>>) -> bool {
    forall|i: int, j: int|
        #![trigger entries[i], entries[j]]
        0 <= i < entries.len() && 0 <= j < entries.len() && i != j ==> !rojo::above(
            entries[i].0,
            entries[j].0,
        )
}

/// A folder, or what is in it, has the place that the entry above it gives it.
pub open spec fn placed_by(
    entries: Rows<Seq<Text>>,
    k: int,
    dir: Text,
    trail: Seq<Text>,
) -> bool {
    &&& 0 <= k < entries.len()
    &&& rojo::above(dir, entries[k].0)
    &&& trail == entries[k].1 + between(dir.skip(entries[k].0.len() as int))
}

/// Of two folders above the same file one is above the other.
proof fn lemma_nested(file: Text, a: Text, b: Text)
    requires
        rojo::above(file, a),
        rojo::above(file, b),
        a.len() <= b.len(),
    ensures
        rojo::above(b, a),
{
    assert forall|i: int| 0 <= i < a.len() implies a[i] == file[i] by {
        if a != file {
            assert(file.subrange(0, a.len() as int + 1) == a.push('/'));
            assert(a.push('/')[i] == a[i]);
        }
    }
    assert forall|i: int| 0 <= i < b.len() implies b[i] == file[i] by {
        if b != file {
            assert(file.subrange(0, b.len() as int + 1) == b.push('/'));
            assert(b.push('/')[i] == b[i]);
        }
    }
    if a.len() == b.len() {
        assert(a =~= b);
    } else {
        assert(file.subrange(0, a.len() as int + 1) == a.push('/'));
        assert(file[a.len() as int] == '/') by {
            assert(a.push('/')[a.len() as int] == '/');
        }
        assert(b.subrange(0, a.len() as int + 1) =~= a.push('/'));
    }
}

/// What a folder that has its place holds has its place: the file of a script
/// below it, the `init` as the folder itself.
proof fn lemma_file_placed(
    entries: Rows<Seq<Text>>,
    k: int,
    dir: Text,
    trail: Seq<Text>,
    file: Text,
    name: Text,
)
    requires
        entries_apart(entries),
        placed_by(entries, k, dir, trail),
        file.len() > 0,
        !file.contains('/'),
        rojo::script_name(file) == Some(name),
    ensures
        trail_at(entries, dir.push('/') + file) == Some(
            if name == "init"@ {
                trail
            } else {
                trail.push(name)
            },
        ),
{
    let rel = dir.push('/') + file;
    let disk = entries[k].0;
    let over = dir.skip(disk.len() as int);
    rojo::lemma_above_deeper(dir, file, disk);
    rojo::law_most_specific(entries, rel);
    let e = rojo::longest(entries, rel)->0;
    let i = choose|i: int| 0 <= i < entries.len() && entries[i] == e;
    if i != k {
        if disk.len() <= e.0.len() {
            lemma_nested(rel, disk, e.0);
            assert(!rojo::above(entries[i].0, entries[k].0));
        } else {
            lemma_nested(rel, e.0, disk);
            assert(!rojo::above(entries[k].0, entries[i].0));
        }
    }
    assert forall|i: int| 0 <= i < file.len() implies file[i] != '/' by {
        if file[i] == '/' {
            assert(file.contains('/'));
        }
    }
    assert(file.last() != '/');
    lemma_names_below(over, file);
    text::lemma_split_plain(file, '/');
    rojo::lemma_filter_one(file);
    if name == "init"@ {
        assert(rojo::names_of(file) =~= Seq::empty());
        assert(between(over) + Seq::<Text>::empty() =~= between(over));
    } else {
        assert(rojo::names_of(file) =~= seq![name]);
    }
    assert(entries[k].1 + (between(over) + rojo::names_of(file)) =~= trail + rojo::names_of(file));
    assert(trail + seq![name] =~= trail.push(name));
    assert(trail + Seq::<Text>::empty() =~= trail);
}

/// A folder in a folder that has its place has its place.
proof fn lemma_folder_placed(
    entries: Rows<Seq<Text>>,
    k: int,
    dir: Text,
    trail: Seq<Text>,
    name: Text,
)
    requires
        placed_by(entries, k, dir, trail),
        name.len() > 0,
        !name.contains('/'),
    ensures
        placed_by(entries, k, dir.push('/') + name, trail.push(name)),
{
    let disk = entries[k].0;
    let over = dir.skip(disk.len() as int);
    rojo::lemma_above_deeper(dir, name, disk);
    assert forall|i: int| 0 <= i < name.len() implies name[i] != '/' by {
        if name[i] == '/' {
            assert(name.contains('/'));
        }
    }
    text::lemma_split_cat(over, '/', name);
    text::lemma_split_plain(name, '/');
    rojo::lemma_filter_cat(text::split(over, '/'), seq![name]);
    rojo::lemma_filter_one(name);
    assert(between(over.push('/') + name) =~= between(over) + seq![name]);
    assert(trail.push(name) =~= entries[k].1 + (between(over) + seq![name]));
}

proof fn lemma_built(node: Tree, trail: Seq<Text>, entries: Rows<Seq<Text>>)
    requires
        entries_apart(entries),
        built(node, trail, entries),
    ensures
        mirrors(node, trail, entries),
    decreases node, 2nat,
{
    if comes_from(node, trail, None, entries) {
        lemma_comes_from(node, trail, None, entries, 0);
    } else {
        let k = choose|k: int|
            0 <= k < entries.len() && ends_at(node, trail, (#[trigger] entries[k]).1)
                && comes_from(node, trail, Some(entries[k].0), entries);
        let none = Seq::<char>::empty();
        let disk = entries[k].0;
        assert(disk.skip(disk.len() as int) =~= none);
        assert(between(none) =~= Seq::empty()) by {
            let keep = |p: Text| p.len() > 0;
            assert(text::split(none, '/') =~= seq![none]);
            seq![none].lemma_all_neg_filter_empty(keep);
        }
        assert(entries[k].1 + Seq::<Text>::empty() =~= entries[k].1);
        lemma_comes_from(node, trail, Some(disk), entries, k);
    }
}

proof fn lemma_comes_from(
    node: Tree,
    trail: Seq<Text>,
    dir: Option<Text>,
    entries: Rows<Seq<Text>>,
    k: int,
)
    requires
        entries_apart(entries),
        comes_from(node, trail, dir, entries),
        match (dir, node) {
            (Some(d), Tree::Object(o)) => match json::text_member(o, "name"@) {
                Some(name) => {
                    let below = rojo::trail_of(o, name, trail);
                    below.len() > 0 && placed_by(entries, k, d, below)
                },
                None => true,
            },
            _ => true,
        },
    ensures
        mirrors(node, trail, entries),
    decreases node, 1nat,
{
    if let Tree::Object(o) = node {
        if let Some(name) = json::text_member(o, "name"@) {
            let below = rojo::trail_of(o, name, trail);
            if let Some(Tree::List(files)) = json::member(o, "filePaths"@) {
                assert forall|i: int, disk: Text|
                    #![trigger is_file(files[i], disk)]
                    0 <= i < files.len() && is_file(files[i], disk) implies trail_at(entries, disk)
                    == Some(below) by {
                    if let Some(d) = dir {
                        assert(stands_in(files[i], d, "init"@));
                        let file = choose|file: Text|
                            disk == d.push('/') + file && file.len() > 0 && !file.contains('/')
                                && #[trigger] rojo::script_name(file) == Some("init"@);
                        lemma_file_placed(entries, k, d, below, file, "init"@);
                    }
                }
            }
            let at = json::place(o, "children"@);
            if 0 <= at < o.len() {
                if let Tree::List(children) = o[at].1 {
                    lemma_all_come_from(children, children.len(), below, dir, entries, k);
                }
            }
        }
    }
}

proof fn lemma_all_come_from(
    children: Seq<Tree>,
    n: nat,
    trail: Seq<Text>,
    dir: Option<Text>,
    entries: Rows<Seq<Text>>,
    k: int,
)
    requires
        n <= children.len(),
        entries_apart(entries),
        all_come_from(children, n, trail, dir, entries),
        match dir {
            Some(d) => trail.len() > 0 && placed_by(entries, k, d, trail),
            None => true,
        },
    ensures
        all_mirror(children, n, trail, entries),
    decreases children, n,
{
    if n > 0 {
        lemma_all_come_from(children, (n - 1) as nat, trail, dir, entries, k);
        let child = children[n - 1];
        if built(child, trail, entries) {
            lemma_built(child, trail, entries);
        } else {
            lemma_lies_in(child, trail, dir->0, entries, k);
        }
    }
}

proof fn lemma_lies_in(
    node: Tree,
    trail: Seq<Text>,
    dir: Text,
    entries: Rows<Seq<Text>>,
    k: int,
)
    requires
        entries_apart(entries),
        lies_in(node, trail, dir, entries),
        trail.len() > 0,
        placed_by(entries, k, dir, trail),
    ensures
        mirrors(node, trail, entries),
    decreases node, 2nat,
{
    if let Tree::Object(o) = node {
        if let Some(name) = json::text_member(o, "name"@) {
            let below = rojo::trail_of(o, name, trail);
            assert(below == trail.push(name));
            if comes_from(node, trail, Some(dir.push('/') + name), entries) {
                lemma_folder_placed(entries, k, dir, trail, name);
                lemma_comes_from(node, trail, Some(dir.push('/') + name), entries, k);
            } else if let Some(Tree::List(files)) = json::member(o, "filePaths"@) {
                assert forall|i: int, disk: Text|
                    #![trigger is_file(files[i], disk)]
                    0 <= i < files.len() && is_file(files[i], disk) implies trail_at(entries, disk)
                    == Some(below) by {
                    assert(stands_in(files[i], dir, name));
                    let file = choose|file: Text|
                        disk == dir.push('/') + file && file.len() > 0 && !file.contains('/')
                            && #[trigger] rojo::script_name(file) == Some(name);
                    lemma_file_placed(entries, k, dir, trail, file, name);
                }
            }
        }
    }
}

/// A sourcemap that is built from a project file, node by node as the folders on
/// disk have it, lists every file where the project file puts it. (Two folders
/// of the project file are not one in the other: what is in the inner one would
/// have two places.)
pub proof fn law_sourcemap_mirrors_the_tree(
    project_file: Text,
    project: Tree,
    sourcemap: Tree,
)
    requires
        rojo::project_entries(project_file, project) is Ok,
        entries_apart(rojo::project_entries(project_file, project)->Ok_0),
        built(sourcemap, Seq::empty(), rojo::project_entries(project_file, project)->Ok_0),
    ensures
        mirrors(sourcemap, Seq::empty(), rojo::project_entries(project_file, project)->Ok_0),
{
    lemma_built(sourcemap, Seq::empty(), rojo::project_entries(project_file, project)->Ok_0);
}

/// A project file and the sourcemap that is built from it answer alike for every
/// file that the sourcemap lists.
pub proof fn law_one_tree_one_answer(
    project_file: Text,
    project: Tree,
    sourcemap_file: Text,
    sourcemap: Tree,
    file: Text,
)
    requires
        rojo::project_entries(project_file, project) is Ok,
        entries_apart(rojo::project_entries(project_file, project)->Ok_0),
        built(sourcemap, Seq::empty(), rojo::project_entries(project_file, project)->Ok_0),
        lists(sourcemap, text::slashes(file)),
        !lists(sourcemap, text::slashes(file) + "/init.luau"@),
        !lists(sourcemap, text::slashes(file) + "/init.lua"@),
    ensures
        rojo::sourcemap_entries(sourcemap_file, sourcemap) is Ok,
        same_place(
            rojo::project_entries(project_file, project)->Ok_0,
            rojo::sourcemap_entries(sourcemap_file, sourcemap)->Ok_0,
            file,
        ),
{
    law_sourcemap_mirrors_the_tree(project_file, project, sourcemap);
    law_sourcemap_agrees_on_what_it_lists(
        project_file,
        project,
        sourcemap_file,
        sourcemap,
        file,
    );
}

} // verus!
