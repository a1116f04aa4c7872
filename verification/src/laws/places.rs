//! Laws of the map from the disk to the game.

use vstd::prelude::*;

use crate::json::{self, Tree};
use crate::laws::driver::{self, ends};
use crate::laws::leaf;
use crate::laws::texts::{self, lacks};
use crate::rojo::{self, MapFault, Side};
use crate::table::{self, Rows};
use crate::text::{self, Text};

verus! {

/// A name that has neither of the ends that pick the class of a script.
pub open spec fn classless(name: Text) -> bool {
    !ends(name, ".client"@) && !ends(name, ".server"@)
}

proof fn lemma_ends(s: Text, p: Text)
    ensures
        ends(s, p) <==> p.is_suffix_of(s),
        ends(s, p) <==> text::without_suffix(s, p) is Some,
{
    if p.len() <= s.len() {
        assert(s.skip(s.len() - p.len()) =~= s.subrange(s.len() - p.len(), s.len() as int));
    }
}

/// A file of code becomes a script with the file's name, without its extension
/// and without the `.client` or `.server` before that.
pub proof fn law_script_name(name: Text)
    requires
        classless(name),
    ensures
        rojo::script_name(name + ".luau"@) == Some(name),
        rojo::script_name(name + ".lua"@) == Some(name),
        rojo::script_name(name + ".client"@ + ".luau"@) == Some(name),
        rojo::script_name(name + ".server"@ + ".luau"@) == Some(name),
        rojo::script_name(name + ".client"@ + ".lua"@) == Some(name),
        rojo::script_name(name + ".server"@ + ".lua"@) == Some(name),
{
    law_class_goes(name);
    law_class_goes(name + ".client"@);
    law_class_goes(name + ".server"@);
    lemma_ends(name, ".client"@);
    lemma_ends(name, ".server"@);
    texts::law_without_suffix(name, ".client"@, name);
    texts::law_without_suffix(name, ".server"@, name);
    assert(text::without_suffix(name + ".server"@, ".client"@) is None) by {
        reveal_strlit(".client");
        reveal_strlit(".server");
        let s = name + ".server"@;
        lemma_ends(s, ".client"@);
        if ends(s, ".client"@) {
            assert(s.skip(s.len() - 7)[1] == ".client"@[1]);
        }
    }
}

/// Of what stands before the extension, a `.client` at the end goes first, and a
/// `.server` at the end of what is left goes next.
pub proof fn law_class_goes(name: Text)
    ensures
        rojo::script_name(name + ".luau"@) == Some(
            rojo::sheared(rojo::sheared(name, ".client"@), ".server"@),
        ),
        rojo::script_name(name + ".lua"@) == Some(
            rojo::sheared(rojo::sheared(name, ".client"@), ".server"@),
        ),
        rojo::sheared(name + ".client"@, ".client"@) == name,
        rojo::sheared(name + ".server"@, ".server"@) == name,
        !ends(name, ".client"@) ==> rojo::sheared(name, ".client"@) == name,
        !ends(name, ".server"@) ==> rojo::sheared(name, ".server"@) == name,
{
    texts::law_without_suffix(name, ".luau"@, name);
    texts::law_without_suffix(name, ".lua"@, name);
    texts::law_without_suffix(name, ".client"@, name);
    texts::law_without_suffix(name, ".server"@, name);
    lemma_ends(name, ".client"@);
    lemma_ends(name, ".server"@);
    assert(text::without_suffix(name + ".lua"@, ".luau"@) is None) by {
        reveal_strlit(".luau");
        reveal_strlit(".lua");
        let s = name + ".lua"@;
        lemma_ends(s, ".luau"@);
        if ends(s, ".luau"@) {
            assert(s.skip(s.len() - 5)[4] == ".luau"@[4]);
            assert(s[s.len() - 1] == 'a');
        }
    }
}

/// A file that does not end in `.luau` or `.lua` is no script.
pub proof fn law_no_script(file: Text)
    ensures
        rojo::script_name(file) is Some <==> ends(file, ".luau"@) || ends(file, ".lua"@),
{
    lemma_ends(file, ".luau"@);
    lemma_ends(file, ".lua"@);
}

/// Names as a path on disk can have them.
pub open spec fn disk_names(names: Seq<Text>) -> bool {
    forall|i: int| 0 <= i < names.len() ==> (#[trigger] names[i]).len() > 0 && !names[i].contains(
        '/',
    )
}

/// Names, each behind a slash.
pub open spec fn behind(names: Seq<Text>) -> Text
    decreases names.len(),
{
    if names.len() == 0 {
        Seq::empty()
    } else {
        behind(names.drop_last()) + "/"@ + names.last()
    }
}

#[verifier::spinoff_prover]
#[verifier::rlimit(40)]
proof fn lemma_behind(names: Seq<Text>)
    requires
        disk_names(names),
    ensures
        text::split(behind(names), '/') == seq![Seq::<char>::empty()] + names,
        text::split(behind(names), '/').filter(|p: Text| p.len() > 0) == names,
    decreases names.len(),
{
    reveal_strlit("/");
    reveal(Seq::filter);
    let keep = |p: Text| p.len() > 0;
    let empty = seq![Seq::<char>::empty()];
    assert(empty.drop_last() =~= Seq::<Text>::empty());
    assert(Seq::<Text>::empty().filter(keep) =~= Seq::<Text>::empty());
    assert(empty.filter(keep) =~= Seq::<Text>::empty());
    if names.len() > 0 {
        let some = names.drop_last();
        let last = names.last();
        assert(last == names[names.len() - 1]);
        assert forall|i: int| 0 <= i < some.len() implies (#[trigger] some[i]).len() > 0
            && !some[i].contains('/') by {
            assert(some[i] == names[i]);
        }
        lemma_behind(some);
        assert forall|i: int| 0 <= i < last.len() implies last[i] != '/' by {
            if last[i] == '/' {
                assert(last.contains('/'));
            }
        }
        text::lemma_split_plain(last, '/');
        text::lemma_split_cat(behind(some), '/', last);
        assert(behind(names) =~= behind(some).push('/') + last);
        assert(text::split(behind(names), '/') =~= empty + names);
        assert((empty + names).drop_last() =~= empty + some);
        assert((empty + names).filter(keep) =~= names);
    } else {
        assert(behind(names) =~= Seq::<char>::empty());
        assert(text::split(behind(names), '/') =~= empty + names);
        assert(empty + names =~= empty);
    }
}

/// The path of a file of code in the game: the path of the entry that speaks for
/// it, the folders below, and the name of the script, with dots between. An
/// `init` is its folder.
#[verifier::spinoff_prover]
#[verifier::rlimit(40)]
pub proof fn law_path_of_a_script(
    entries: Rows<Seq<Text>>,
    disk: Text,
    trail: Seq<Text>,
    folders: Seq<Text>,
    name: Text,
    end: Text,
)
    requires
        rojo::longest(entries, text::slashes(disk + behind(folders.push(name + end)))) == Some(
            (disk, trail),
        ),
        !(disk + behind(folders.push(name + end))).contains('\\'),
        disk_names(folders.push(name + end)),
        classless(name),
        code_end(end),
    ensures
        rojo::path_of(entries, disk + behind(folders.push(name + end))) == Ok::<Text, MapFault>(
            leaf::dotted(
                if name == "init"@ {
                    trail + folders
                } else {
                    trail + folders + seq![name]
                },
            ),
        ),
{
    lemma_script_end(name, end);
    lemma_path_of_a_script(entries, disk, trail, folders, name, name + end);
}

/// The end of the name of a file of code.
pub open spec fn code_end(end: Text) -> bool {
    ||| end == ".luau"@
    ||| end == ".lua"@
    ||| end == ".client"@ + ".luau"@
    ||| end == ".server"@ + ".luau"@
    ||| end == ".client"@ + ".lua"@
    ||| end == ".server"@ + ".lua"@
}

proof fn lemma_script_end(name: Text, end: Text)
    requires
        classless(name),
        code_end(end),
    ensures
        rojo::script_name(name + end) == Some(name),
{
    law_script_name(name);
    lemma_cat(name, ".client"@, ".luau"@);
    lemma_cat(name, ".server"@, ".luau"@);
    lemma_cat(name, ".client"@, ".lua"@);
    lemma_cat(name, ".server"@, ".lua"@);
}

proof fn lemma_cat(a: Text, b: Text, c: Text)
    ensures
        a + (b + c) == a + b + c,
{
    assert(a + (b + c) =~= a + b + c);
}

/// The instances that pieces of a path name.
spec fn instances(pieces: Seq<Text>) -> Seq<Text> {
    if pieces.len() == 0 {
        pieces
    } else {
        match rojo::script_name(pieces.last()) {
            Some(name) => if name == "init"@ {
                pieces.drop_last()
            } else {
                pieces.drop_last().push(name)
            },
            None => pieces,
        }
    }
}

#[verifier::spinoff_prover]
#[verifier::rlimit(40)]
proof fn lemma_instances(rest: Text, pieces: Seq<Text>)
    requires
        text::split(rest, '/').filter(|p: Text| p.len() > 0) == pieces,
    ensures
        rojo::names_of(rest) == instances(pieces),
{
}

#[verifier::spinoff_prover]
#[verifier::rlimit(40)]
proof fn lemma_instances_of_a_script(folders: Seq<Text>, name: Text, file: Text)
    requires
        rojo::script_name(file) == Some(name),
    ensures
        name == "init"@ ==> instances(folders.push(file)) == folders,
        name != "init"@ ==> instances(folders.push(file)) == folders.push(name),
{
    let all = folders.push(file);
    assert(all.last() == file);
    assert(all.drop_last() =~= folders);
}

#[verifier::spinoff_prover]
#[verifier::rlimit(40)]
proof fn lemma_names_of(folders: Seq<Text>, name: Text, file: Text)
    requires
        disk_names(folders.push(file)),
        rojo::script_name(file) == Some(name),
    ensures
        name == "init"@ ==> rojo::names_of(behind(folders.push(file))) == folders,
        name != "init"@ ==> rojo::names_of(behind(folders.push(file))) == folders.push(name),
{
    let all = folders.push(file);
    lemma_behind(all);
    lemma_instances(behind(all), all);
    lemma_instances_of_a_script(folders, name, file);
}

#[verifier::spinoff_prover]
#[verifier::rlimit(40)]
proof fn lemma_path_of_a_script(
    entries: Rows<Seq<Text>>,
    disk: Text,
    trail: Seq<Text>,
    folders: Seq<Text>,
    name: Text,
    file: Text,
)
    requires
        rojo::longest(entries, text::slashes(disk + behind(folders.push(file)))) == Some(
            (disk, trail),
        ),
        !(disk + behind(folders.push(file))).contains('\\'),
        disk_names(folders.push(file)),
        rojo::script_name(file) == Some(name),
    ensures
        rojo::path_of(entries, disk + behind(folders.push(file))) == Ok::<Text, MapFault>(
            leaf::dotted(
                if name == "init"@ {
                    trail + folders
                } else {
                    trail + folders + seq![name]
                },
            ),
        ),
{
    let all = folders.push(file);
    let path = disk + behind(all);
    texts::law_slashes(path);
    lemma_names_of(folders, name, file);
    assert(path.skip(disk.len() as int) =~= behind(all));
    assert(trail + folders.push(name) =~= trail + folders + seq![name]);
    let names = rojo::names_of(behind(all));
    assert(rojo::path_of(entries, path) == Ok::<Text, MapFault>(
        text::joined(trail + names, "."@),
    ));
}

/// The path of a folder, or of a file that is no code, in the game: the path of
/// the entry that speaks for it, then all the names below.
#[verifier::spinoff_prover]
#[verifier::rlimit(40)]
pub proof fn law_path_of_a_folder(
    entries: Rows<Seq<Text>>,
    disk: Text,
    trail: Seq<Text>,
    names: Seq<Text>,
)
    requires
        rojo::longest(entries, text::slashes(disk + behind(names))) == Some((disk, trail)),
        !(disk + behind(names)).contains('\\'),
        disk_names(names),
        names.len() > 0 ==> !ends(names.last(), ".luau"@) && !ends(names.last(), ".lua"@),
    ensures
        rojo::path_of(entries, disk + behind(names)) == Ok::<Text, MapFault>(
            leaf::dotted(trail + names),
        ),
{
    let file = disk + behind(names);
    texts::law_slashes(file);
    lemma_behind(names);
    lemma_instances(behind(names), names);
    assert(file.skip(disk.len() as int) =~= behind(names));
    if names.len() > 0 {
        law_no_script(names.last());
    }
    assert(instances(names) == names);
}

/// The entry that speaks for a file is one whose path is the file's, or begins
/// it up to a slash. Without one the file is outside, and is said to be.
#[verifier::spinoff_prover]
#[verifier::rlimit(40)]
pub proof fn law_outside(entries: Rows<Seq<Text>>, file: Text)
    ensures
        rojo::path_of(entries, file) is Err <==> forall|i: int|
            0 <= i < entries.len() ==> !covers(#[trigger] entries[i].0, text::slashes(file)),
        rojo::path_of(entries, file) matches Err(f) ==> f == (MapFault::Outside {
            rel: text::slashes(file),
        }),
{
    let rel = text::slashes(file);
    rojo::law_most_specific(entries, rel);
    assert forall|i: int| 0 <= i < entries.len() implies covers(#[trigger] entries[i].0, rel)
        == rojo::above(rel, entries[i].0) by {
        lemma_covers(entries[i].0, rel);
    }
}

/// A path on disk is a file, or a folder that the file is in.
pub open spec fn covers(disk: Text, file: Text) -> bool {
    file == disk || exists|more: Text| file == #[trigger] inside(disk, more)
}

/// Something in a folder.
pub open spec fn inside(disk: Text, more: Text) -> Text {
    disk + "/"@ + more
}

proof fn lemma_covers(disk: Text, file: Text)
    ensures
        covers(disk, file) <==> rojo::above(file, disk),
{
    reveal_strlit("/");
    assert(disk + "/"@ =~= disk.push('/'));
    let n = disk.len() + 1;
    if disk.push('/').is_prefix_of(file) {
        assert(file =~= inside(disk, file.skip(n as int)));
    }
    if exists|more: Text| file == #[trigger] inside(disk, more) {
        let more = choose|more: Text| file == #[trigger] inside(disk, more);
        assert(disk.push('/') =~= file.subrange(0, n as int));
    }
}

/// The side of what lives under a service: the server's for two of them, the
/// client's for four, shared for all others.
#[verifier::spinoff_prover]
#[verifier::rlimit(40)]
pub proof fn law_side_of_a_service(
    entries: Rows<Seq<Text>>,
    file: Text,
    service: Text,
    more: Text,
)
    requires
        !service.contains('.'),
        rojo::path_of(entries, file) == Ok::<Text, MapFault>(service) || rojo::path_of(
            entries,
            file,
        ) == Ok::<Text, MapFault>(driver::behind_dot(service, more)),
    ensures
        ({
            let side = rojo::side_at(entries, file);
            let on_server = seq!["ServerScriptService"@, "ServerStorage"@];
            let on_client = seq![
                "StarterPlayer"@,
                "StarterGui"@,
                "StarterPack"@,
                "ReplicatedFirst"@,
            ];
            &&& side is Ok
            &&& on_server.contains(service) <==> side->Ok_0 == Side::Server
            &&& on_client.contains(service) <==> side->Ok_0 == Side::Client
        }),
{
    reveal_strlit("ServerScriptService");
    reveal_strlit("ServerStorage");
    reveal_strlit("StarterPlayer");
    reveal_strlit("StarterGui");
    reveal_strlit("StarterPack");
    reveal_strlit("ReplicatedFirst");
    let on_server = seq!["ServerScriptService"@, "ServerStorage"@];
    let on_client = seq!["StarterPlayer"@, "StarterGui"@, "StarterPack"@, "ReplicatedFirst"@];
    assert(on_server[0] == "ServerScriptService"@);
    assert(on_server[1] == "ServerStorage"@);
    assert(on_client[0] == "StarterPlayer"@);
    assert(on_client[1] == "StarterGui"@);
    assert(on_client[2] == "StarterPack"@);
    assert(on_client[3] == "ReplicatedFirst"@);
    assert("ServerScriptService"@[2] == 'r');
    assert("ServerStorage"@[2] == 'r');
    assert("StarterPlayer"@[2] == 'a');
    assert("StarterGui"@[2] == 'a');
    assert("StarterPack"@[2] == 'a');
    assert("ReplicatedFirst"@[2] == 'p');
    assert(driver::behind_dot(service, more) =~= service.push('.') + more) by {
        reveal_strlit(".");
    }
    texts::law_head(service, '.', more);
}

/// A fault in words names the file and says what is wrong.
pub proof fn law_faults_in_words(file: Text, detail: Text)
    ensures
        rojo::fault_message(MapFault::NotJson { file, detail }) == file + " is not valid JSON: "@
            + detail,
        rojo::fault_message(MapFault::NoTree { file }) == file + " has no `tree`"@,
        rojo::fault_message(MapFault::NoFilePaths { file }) == file
            + " has no filePaths; is it a sourcemap?"@,
        rojo::fault_message(MapFault::Outside { rel: file })
            == "path outside default.project.json: "@ + file,
{
}

/// A path in a project file leads to the disk with slashes, and without those at
/// its end.
pub proof fn law_disk(path: Text, more: Text)
    requires
        texts::only(more, '/'),
        !path.contains('\\'),
        path.len() == 0 || path.last() != '/',
    ensures
        rojo::disk_of(path + more) == path,
{
    let all = path + more;
    assert(!all.contains('\\')) by {
        if all.contains('\\') {
            let i = choose|i: int| 0 <= i < all.len() && all[i] == '\\';
            if i < path.len() {
                assert(path[i] == '\\');
            } else {
                assert(more[i - path.len()] == '/');
            }
        }
    }
    texts::law_slashes(all);
    texts::law_taken_off_the_end(path, more, '/');
}

/// A `$path` is a text, or an object that has it under `optional`, or under
/// `path` where there is no `optional`. Anything else is no path.
pub proof fn law_path_text(
    before: Seq<(Text, Tree)>,
    after: Seq<(Text, Tree)>,
    t: Text,
    other: Tree,
)
    ensures
        rojo::path_text(Tree::Text(t)) == Some(t),
        lacks(before, "optional"@) ==> rojo::path_text(
            Tree::Object(before + seq![("optional"@, Tree::Text(t))] + after),
        ) == Some(t),
        lacks(before, "optional"@) && !(other is Text) ==> rojo::path_text(
            Tree::Object(before + seq![("optional"@, other)] + after),
        ) is None,
        lacks(before, "path"@) && lacks(
            before + seq![("path"@, Tree::Text(t))] + after,
            "optional"@,
        ) ==> rojo::path_text(Tree::Object(before + seq![("path"@, Tree::Text(t))] + after))
            == Some(t),
        lacks(before, "path"@) && lacks(before, "optional"@) ==> rojo::path_text(
            Tree::Object(before),
        ) is None,
        !(other is Text) && !(other is Object) ==> rojo::path_text(other) is None,
{
    if lacks(before, "optional"@) {
        texts::law_member(before, "optional"@, Tree::Text(t), after);
        texts::law_member(before, "optional"@, other, after);
    }
    if lacks(before, "path"@) {
        texts::law_member(before, "path"@, Tree::Text(t), after);
        let all = before + seq![("path"@, Tree::Text(t))] + after;
        if lacks(all, "optional"@) {
            texts::law_member(all, "optional"@, other, after);
        }
    }
}

proof fn lemma_descended_fewer(
    a: Seq<(Text, Tree)>,
    b: Seq<(Text, Tree)>,
    n: nat,
    trail: Seq<Text>,
    out: Rows<Seq<Text>>,
)
    requires
        n <= a.len(),
    ensures
        rojo::descended_all(a + b, n, trail, out) == rojo::descended_all(a, n, trail, out),
    decreases n,
{
    if n > 0 {
        lemma_descended_fewer(a, b, (n - 1) as nat, trail, out);
        assert((a + b)[n - 1] == a[n - 1]);
    }
}

proof fn lemma_descended_more(
    a: Seq<(Text, Tree)>,
    b: Seq<(Text, Tree)>,
    n: nat,
    trail: Seq<Text>,
    out: Rows<Seq<Text>>,
)
    requires
        n <= b.len(),
    ensures
        rojo::descended_all(a + b, a.len() + n, trail, out) == rojo::descended_all(
            b,
            n,
            trail,
            rojo::descended_all(a, a.len(), trail, out),
        ),
    decreases n,
{
    if n > 0 {
        let m = (n - 1) as nat;
        lemma_descended_more(a, b, m, trail, out);
        assert((a + b)[a.len() + n - 1] == b[n - 1]);
        assert((a.len() + n - 1) as nat == a.len() + m);
    } else {
        lemma_descended_fewer(a, b, a.len(), trail, out);
    }
}

/// The members of a node of a project file are read one after the other. What
/// one adds, the next goes on from.
pub proof fn law_members_in_turn(
    a: Seq<(Text, Tree)>,
    b: Seq<(Text, Tree)>,
    trail: Seq<Text>,
    out: Rows<Seq<Text>>,
)
    requires
        lacks(a, "$path"@),
        lacks(b, "$path"@),
    ensures
        rojo::descended(Tree::Object(a + b), trail, out) == rojo::descended(
            Tree::Object(b),
            trail,
            rojo::descended(Tree::Object(a), trail, out),
        ),
{
    lemma_lacks_cat(a, b, "$path"@);
    lemma_no_path(a);
    lemma_no_path(b);
    lemma_no_path(a + b);
    lemma_descended_more(a, b, b.len(), trail, out);
}

proof fn lemma_lacks_cat(a: Seq<(Text, Tree)>, b: Seq<(Text, Tree)>, key: Text)
    requires
        lacks(a, key),
        lacks(b, key),
    ensures
        lacks(a + b, key),
{
    assert forall|i: int| 0 <= i < (a + b).len() implies (#[trigger] (a + b)[i]).0 != key by {
        if i < a.len() {
            assert((a + b)[i] == a[i]);
        } else {
            assert((a + b)[i] == b[i - a.len()]);
        }
    }
}

proof fn lemma_no_path(o: Seq<(Text, Tree)>)
    requires
        lacks(o, "$path"@),
    ensures
        json::member(o, "$path"@) is None,
{
    texts::law_member(o, "$path"@, Tree::Null, o);
}

/// A child of a node of a project file is read one step further down, under the
/// key that it has. A member whose key begins with `$` is no child. Nothing is
/// read from what is no object, nor from an object without members.
pub proof fn law_one_child(key: Text, child: Tree, trail: Seq<Text>, out: Rows<Seq<Text>>)
    ensures
        key.len() > 0 && key[0] == '$' && key != "$path"@ ==> rojo::descended(
            Tree::Object(seq![(key, child)]),
            trail,
            out,
        ) == out,
        key.len() == 0 || key[0] != '$' ==> rojo::descended(
            Tree::Object(seq![(key, child)]),
            trail,
            out,
        ) == rojo::descended(child, trail.push(key), out),
        !(child is Object) ==> rojo::descended(child, trail, out) == out,
        rojo::descended(Tree::Object(Seq::empty()), trail, out) == out,
{
    reveal_strlit("$");
    let o = seq![(key, child)];
    let none = Seq::<(Text, Tree)>::empty();
    lemma_no_path(none);
    assert(rojo::descended_all(o, 0, trail, out) == out);
    assert(o[0] == (key, child));
    assert("$"@.is_prefix_of(key) <==> key.len() > 0 && key[0] == '$') by {
        if key.len() > 0 && key[0] == '$' {
            assert(key.subrange(0, 1) =~= "$"@);
        }
        if "$"@.is_prefix_of(key) {
            assert("$"@[0] == key.subrange(0, 1)[0]);
        }
    }
    if key != "$path"@ {
        assert(lacks(o, "$path"@));
        lemma_no_path(o);
        assert(rojo::descended(Tree::Object(o), trail, out) == rojo::descended_all(
            o,
            1,
            trail,
            out,
        ));
    } else {
        reveal_strlit("$path");
    }
}

/// A node of a project file with a `$path` binds that path to its trail, before
/// what its other members bind.
pub proof fn law_own_path(
    a: Seq<(Text, Tree)>,
    path: Tree,
    b: Seq<(Text, Tree)>,
    trail: Seq<Text>,
    out: Rows<Seq<Text>>,
)
    requires
        lacks(a, "$path"@),
        lacks(b, "$path"@),
    ensures
        rojo::path_text(path) matches Some(t) ==> rojo::descended(
            Tree::Object(a + seq![("$path"@, path)] + b),
            trail,
            out,
        ) == rojo::descended(Tree::Object(a + b), trail, table::put(out, rojo::disk_of(t), trail)),
        rojo::path_text(path) is None ==> rojo::descended(
            Tree::Object(a + seq![("$path"@, path)] + b),
            trail,
            out,
        ) == rojo::descended(Tree::Object(a + b), trail, out),
{
    let all = a + seq![("$path"@, path)] + b;
    texts::law_member(a, "$path"@, path, b);
    lemma_lacks_cat(a, b, "$path"@);
    lemma_no_path(a + b);
    let own = match rojo::path_text(path) {
        Some(t) => table::put(out, rojo::disk_of(t), trail),
        None => out,
    };
    lemma_path_is_no_child(a, path, b, trail, own);
}

proof fn lemma_path_is_no_child(
    a: Seq<(Text, Tree)>,
    path: Tree,
    b: Seq<(Text, Tree)>,
    trail: Seq<Text>,
    own: Rows<Seq<Text>>,
)
    ensures
        rojo::descended_all(
            a + seq![("$path"@, path)] + b,
            (a + seq![("$path"@, path)] + b).len(),
            trail,
            own,
        ) == rojo::descended_all(a + b, (a + b).len(), trail, own),
{
    reveal_strlit("$");
    reveal_strlit("$path");
    let one = seq![("$path"@, path)];
    assert("$path"@.subrange(0, 1) =~= "$"@);
    lemma_descended_more(a + one, b, b.len(), trail, own);
    lemma_descended_more(a, one, 1, trail, own);
    lemma_descended_more(a, b, b.len(), trail, own);
    let done = rojo::descended_all(a, a.len(), trail, own);
    assert(one[0].0 == "$path"@);
    assert(rojo::descended_all(one, 0, trail, done) == done);
    assert(rojo::descended_all(one, 1, trail, done) == done);
}

/// The map of a project file is what its `tree` binds, from no path on. A path
/// of the tree itself counts for nothing. A document without a `tree` is
/// refused, and the file is named.
pub proof fn law_project_map(
    file: Text,
    before: Seq<(Text, Tree)>,
    tree: Tree,
    after: Seq<(Text, Tree)>,
    other: Tree,
)
    requires
        lacks(before, "tree"@),
    ensures
        rojo::project_entries(file, Tree::Object(before)) == Err::<Rows<Seq<Text>>, MapFault>(
            MapFault::NoTree { file },
        ),
        !(other is Object) ==> rojo::project_entries(file, other) == Err::<
            Rows<Seq<Text>>,
            MapFault,
        >(MapFault::NoTree { file }),
        (tree matches Tree::Object(o) ==> lacks(o, "$path"@)) ==> rojo::project_entries(
            file,
            Tree::Object(before + seq![("tree"@, tree)] + after),
        ) == Ok::<Rows<Seq<Text>>, MapFault>(
            rojo::descended(tree, Seq::empty(), Seq::empty()),
        ),
{
    texts::law_member(before, "tree"@, tree, after);
    if let Tree::Object(o) = tree {
        if lacks(o, "$path"@) {
            lemma_no_path(o);
        }
    }
}

/// A path of the tree itself counts for nothing.
pub proof fn law_root_path_counts_for_nothing(
    file: Text,
    a: Seq<(Text, Tree)>,
    path: Tree,
    b: Seq<(Text, Tree)>,
)
    ensures
        rojo::project_entries(
            file,
            Tree::Object(seq![("tree"@, Tree::Object(a + seq![("$path"@, path)] + b))]),
        ) == rojo::project_entries(file, Tree::Object(seq![("tree"@, Tree::Object(a + b))])),
{
    let none = Seq::<(Text, Tree)>::empty();
    let with = Tree::Object(a + seq![("$path"@, path)] + b);
    let without = Tree::Object(a + b);
    texts::law_member(none, "tree"@, with, none);
    texts::law_member(none, "tree"@, without, none);
    assert(none + seq![("tree"@, with)] + none =~= seq![("tree"@, with)]);
    assert(none + seq![("tree"@, without)] + none =~= seq![("tree"@, without)]);
    lemma_path_is_no_child(a, path, b, Seq::empty(), Seq::empty());
}

/// A file of code of a sourcemap is bound to its node's path, and where it is
/// an `init`, so is its folder. Nothing else changes. What is no code is not
/// bound.
pub proof fn law_file_of_a_sourcemap(
    t: Text,
    trail: Seq<Text>,
    out: Rows<Seq<Text>>,
    dir: Text,
    key: Text,
    other: Tree,
)
    requires
        table::sorted(out),
    ensures
        ({
            let disk = rojo::disk_of(t);
            let all = rojo::filed(Tree::Text(t), trail, out);
            let code = ends(disk, ".luau"@) || ends(disk, ".lua"@);
            let init = disk == dir + "/init.luau"@ || disk == dir + "/init.lua"@;
            &&& code ==> table::get(all, disk) == Some(trail)
            &&& code && init ==> table::get(all, dir) == Some(trail)
            &&& code && key != disk && key + "/init.luau"@ != disk && key + "/init.lua"@ != disk
                ==> table::get(all, key) == table::get(out, key)
            &&& !code ==> all == out
        }),
        !(other is Text) ==> rojo::filed(other, trail, out) == out,
{
    let disk = rojo::disk_of(t);
    lemma_ends(disk, ".luau"@);
    lemma_ends(disk, ".lua"@);
    texts::law_without_suffix(dir, "/init.luau"@, disk);
    texts::law_without_suffix(dir, "/init.lua"@, disk);
    let own = table::put(out, disk, trail);
    table::law_get_put(out, disk, trail, disk);
    table::law_get_put(out, disk, trail, key);
    table::law_get_put(out, disk, trail, dir);
    table::law_put_sorted(out, disk, trail);
    lemma_inits(dir, disk);
    if let Some(d) = rojo::init_folder(disk) {
        table::law_get_put(own, d, trail, disk);
        table::law_get_put(own, d, trail, key);
        table::law_get_put(own, d, trail, dir);
    }
}

proof fn lemma_inits(dir: Text, disk: Text)
    ensures
        disk == dir + "/init.luau"@ || disk == dir + "/init.lua"@ ==> rojo::init_folder(disk)
            == Some(dir),
        rojo::init_folder(disk) matches Some(d) ==> disk == d + "/init.luau"@ || disk == d
            + "/init.lua"@,
{
    texts::law_without_suffix(dir, "/init.luau"@, disk);
    texts::law_without_suffix(dir, "/init.lua"@, disk);
    if disk == dir + "/init.lua"@ {
        reveal_strlit("/init.lua");
        reveal_strlit("/init.luau");
        lemma_ends(disk, "/init.luau"@);
        if ends(disk, "/init.luau"@) {
            assert(disk.skip(disk.len() - 10)[9] == "/init.luau"@[9]);
            assert(disk[disk.len() - 1] == 'a');
        }
    }
}

/// The files of a node of a sourcemap are bound one after the other.
pub proof fn law_files_in_turn(
    a: Seq<Tree>,
    b: Seq<Tree>,
    file: Tree,
    trail: Seq<Text>,
    out: Rows<Seq<Text>>,
)
    ensures
        rojo::filed_all(Seq::empty(), trail, out) == out,
        rojo::filed_all(seq![file], trail, out) == rojo::filed(file, trail, out),
        rojo::filed_all(a + b, trail, out) == rojo::filed_all(
            b,
            trail,
            rojo::filed_all(a, trail, out),
        ),
    decreases b.len(),
{
    assert(seq![file].drop_last() =~= Seq::<Tree>::empty());
    assert(rojo::filed_all(Seq::empty(), trail, out) == out);
    if b.len() > 0 {
        law_files_in_turn(a, b.drop_last(), file, trail, out);
        assert((a + b).drop_last() =~= a + b.drop_last());
        assert((a + b).last() == b.last());
    } else {
        assert(a + b =~= a);
    }
}

proof fn lemma_gathered_fewer(
    a: Seq<Tree>,
    b: Seq<Tree>,
    n: nat,
    trail: Seq<Text>,
    out: Rows<Seq<Text>>,
)
    requires
        n <= a.len(),
    ensures
        rojo::gathered_all(a + b, n, trail, out) == rojo::gathered_all(a, n, trail, out),
    decreases n,
{
    if n > 0 {
        lemma_gathered_fewer(a, b, (n - 1) as nat, trail, out);
        assert((a + b)[n - 1] == a[n - 1]);
    }
}

/// The children of a node of a sourcemap are read one after the other.
pub proof fn law_children_in_turn(
    a: Seq<Tree>,
    b: Seq<Tree>,
    child: Tree,
    trail: Seq<Text>,
    out: Rows<Seq<Text>>,
)
    ensures
        rojo::gathered_all(Seq::empty(), 0, trail, out) == out,
        rojo::gathered_all(seq![child], 1, trail, out) == rojo::gathered(child, trail, out),
        rojo::gathered_all(a + b, (a + b).len(), trail, out) == rojo::gathered_all(
            b,
            b.len(),
            trail,
            rojo::gathered_all(a, a.len(), trail, out),
        ),
{
    assert(rojo::gathered_all(seq![child], 0, trail, out) == out);
    lemma_gathered_more(a, b, b.len(), trail, out);
}

proof fn lemma_gathered_more(
    a: Seq<Tree>,
    b: Seq<Tree>,
    n: nat,
    trail: Seq<Text>,
    out: Rows<Seq<Text>>,
)
    requires
        n <= b.len(),
    ensures
        rojo::gathered_all(a + b, a.len() + n, trail, out) == rojo::gathered_all(
            b,
            n,
            trail,
            rojo::gathered_all(a, a.len(), trail, out),
        ),
    decreases n,
{
    if n > 0 {
        let m = (n - 1) as nat;
        lemma_gathered_more(a, b, m, trail, out);
        assert((a + b)[a.len() + n - 1] == b[n - 1]);
        assert((a.len() + n - 1) as nat == a.len() + m);
    } else {
        lemma_gathered_fewer(a, b, a.len(), trail, out);
    }
}

/// A node of a sourcemap binds its files, then its children bind theirs, one
/// step further down under the node's name. The `DataModel` at the root is no
/// step. A node without a name binds nothing.
pub proof fn law_node_of_a_sourcemap(
    o: Seq<(Text, Tree)>,
    name: Text,
    files: Seq<Tree>,
    children: Seq<Tree>,
    trail: Seq<Text>,
    out: Rows<Seq<Text>>,
)
    requires
        json::member(o, "filePaths"@) == Some(Tree::List(files)),
        json::member(o, "children"@) == Some(Tree::List(children)),
    ensures
        ({
            let all = rojo::gathered(Tree::Object(o), trail, out);
            let root = trail.len() == 0 && json::member(o, "className"@) == Some(
                Tree::Text("DataModel"@),
            );
            let down = trail.push(name);
            let named = json::member(o, "name"@) == Some(Tree::Text(name));
            &&& named && !root ==> all == rojo::gathered_all(
                children,
                children.len(),
                down,
                rojo::filed_all(files, down, out),
            )
            &&& named && root ==> all == rojo::gathered_all(
                children,
                children.len(),
                trail,
                rojo::filed_all(files, trail, out),
            )
            &&& json::text_member(o, "name"@) is None ==> all == out
        }),
{
}

/// A node of a sourcemap without files or without children binds what it has.
pub proof fn law_partial_node_of_a_sourcemap(
    o: Seq<(Text, Tree)>,
    name: Text,
    list: Seq<Tree>,
    trail: Seq<Text>,
    out: Rows<Seq<Text>>,
    other: Tree,
)
    requires
        json::member(o, "name"@) == Some(Tree::Text(name)),
        trail.len() > 0,
    ensures
        ({
            let all = rojo::gathered(Tree::Object(o), trail, out);
            let down = trail.push(name);
            let files = json::member(o, "filePaths"@);
            let children = json::member(o, "children"@);
            &&& !(files is Some && files->0 is List) && children == Some(Tree::List(list)) ==> all
                == rojo::gathered_all(list, list.len(), down, out)
            &&& files == Some(Tree::List(list)) && !(children is Some && children->0 is List)
                ==> all == rojo::filed_all(list, down, out)
            &&& !(files is Some && files->0 is List) && !(children is Some && children->0 is List)
                ==> all == out
        }),
        !(other is Object) ==> rojo::gathered(other, trail, out) == out,
{
}

/// A sourcemap that binds nothing is refused, and the file is named.
pub proof fn law_sourcemap_map(file: Text, document: Tree)
    ensures
        ({
            let bound = rojo::gathered(document, Seq::empty(), Seq::empty());
            let made = rojo::sourcemap_entries(file, document);
            &&& bound.len() > 0 ==> made == Ok::<Rows<Seq<Text>>, MapFault>(bound)
            &&& bound.len() == 0 ==> made == Err::<Rows<Seq<Text>>, MapFault>(
                MapFault::NoFilePaths { file },
            )
        }),
{
}

/// A text that is no JSON is refused with the reader's message, whichever map it
/// was to be.
pub proof fn law_no_json(file: Text, content: Text, detail: Text)
    requires
        json::json_read(content) == Err::<Tree, Text>(detail),
    ensures
        rojo::project_map(file, content) == Err::<Rows<Seq<Text>>, MapFault>(
            MapFault::NotJson { file, detail },
        ),
        rojo::sourcemap_map(file, content) == Err::<Rows<Seq<Text>>, MapFault>(
            MapFault::NotJson { file, detail },
        ),
{
}

/// A file is in the game where it is under forward slashes, and empty pieces
/// between its slashes count for nothing.
#[verifier::spinoff_prover]
#[verifier::rlimit(40)]
pub proof fn law_slashes_do_not_matter(entries: Rows<Seq<Text>>, file: Text, pieces: Seq<Text>)
    requires
        pieces.len() > 0,
        forall|i: int| 0 <= i < pieces.len() ==> !(#[trigger] pieces[i]).contains('/'),
    ensures
        rojo::path_of(entries, file) == rojo::path_of(entries, text::slashes(file)),
        rojo::names_of(text::joined(pieces, "/"@)) == rojo::names_of(
            behind(pieces.filter(|p: Text| p.len() > 0)),
        ),
{
    texts::law_slashes(file);
    texts::law_slashes(text::slashes(file));
    lemma_pieces(pieces);
    let some = pieces.filter(|p: Text| p.len() > 0);
    lemma_behind(some);
    lemma_instances(text::joined(pieces, "/"@), some);
    lemma_instances(behind(some), some);
}

#[verifier::spinoff_prover]
#[verifier::rlimit(40)]
proof fn lemma_pieces(pieces: Seq<Text>)
    requires
        pieces.len() > 0,
        forall|i: int| 0 <= i < pieces.len() ==> !(#[trigger] pieces[i]).contains('/'),
    ensures
        text::split(text::joined(pieces, "/"@), '/') == pieces,
        disk_names(pieces.filter(|p: Text| p.len() > 0)),
{
    reveal_strlit("/");
    assert("/"@ =~= seq!['/']);
    text::law_join_split(pieces, '/');
    let keep = |p: Text| p.len() > 0;
    let some = pieces.filter(keep);
    assert forall|i: int| 0 <= i < some.len() implies (#[trigger] some[i]).len() > 0
        && !some[i].contains('/') by {
        pieces.lemma_filter_pred(keep, i);
        pieces.lemma_filter_contains_rev(keep, some[i]);
        assert(some.contains(some[i]));
        let k = choose|k: int| 0 <= k < pieces.len() && pieces[k] == some[i];
        assert(!pieces[k].contains('/'));
    }
}

/// The name of a side, and so no two sides have one name.
pub proof fn law_side_names(a: Side, b: Side)
    ensures
        rojo::side_name(Side::Client) == "client"@,
        rojo::side_name(Side::Server) == "server"@,
        rojo::side_name(Side::Shared) == "shared"@,
        rojo::side_name(a) == rojo::side_name(b) ==> a == b,
{
    reveal_strlit("client");
    reveal_strlit("server");
    reveal_strlit("shared");
    assert("client"@[0] == 'c');
    assert("server"@[1] == 'e');
    assert("shared"@[1] == 'h');
    assert("server"@[0] == 's');
    assert("shared"@[0] == 's');
}

} // verus!
