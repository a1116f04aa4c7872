//! Laws of how modules are found, of how they move, and of where the project is.

use vstd::prelude::*;

use crate::laws::leaf::{self, is_space};
use crate::layout;
use crate::paths::{self, PartView};
use crate::scan::{self, KeptView};
use crate::source::{self, ClimbView, RootView, SourceView};
use crate::text::{self, Text};

verus! {

/// The name that a path ends in.
pub open spec fn named(path: Text, name: Text) -> bool {
    paths::parts(path).len() > 0 && paths::parts(path).last() == PartView::Name(name)
}

/// A file is one of code just where its name is something and then `.luau`.
pub proof fn law_code_file(path: Text, stem: Text)
    ensures
        stem.len() > 0 && named(path, stem + ".luau"@) ==> paths::is_luau(path),
        paths::is_luau(path) ==> exists|s: Text|
            s.len() > 0 && #[trigger] named(path, s + ".luau"@),
{
    reveal_strlit(".luau");
    reveal_strlit("luau");
    if stem.len() > 0 && named(path, stem + ".luau"@) {
        let name = stem + ".luau"@;
        let n = name.len() as int;
        reveal_with_fuel(paths::dot_of, 6);
        assert(paths::dot_of(name, n) == Some(n - 5));
        assert(name.skip(n - 4) =~= "luau"@);
    }
    if paths::is_luau(path) {
        let name = paths::name_of(path)->0;
        lemma_dot(name, name.len() as int);
        let i = paths::dot_of(name, name.len() as int)->0;
        let s = name.take(i);
        assert(name =~= s + ".luau"@) by {
            assert(name =~= s.push('.') + name.skip(i + 1));
            assert(".luau"@ =~= seq!['.'] + "luau"@);
        }
        assert(named(path, s + ".luau"@));
    }
}

proof fn lemma_dot(name: Text, n: int)
    requires
        n <= name.len(),
    ensures
        paths::dot_of(name, n) matches Some(i) ==> 0 < i < n && name[i] == '.',
    decreases n,
{
    if n > 1 && name[n - 1] != '.' {
        lemma_dot(name, n - 1);
    }
}

/// Paths are in the order of the first component in which they differ, names by
/// their texts; a folder comes before what it holds.
pub proof fn law_path_order(
    common: Seq<PartView>,
    x: Text,
    a: Seq<PartView>,
    y: Text,
    b: Seq<PartView>,
)
    ensures
        text::before(x, y) ==> paths::parts_before(
            common + seq![PartView::Name(x)] + a,
            common + seq![PartView::Name(y)] + b,
        ),
        paths::parts_before(common, common + seq![PartView::Name(x)] + a),
        !paths::parts_before(common + seq![PartView::Name(x)] + a, common),
    decreases common.len(),
{
    let s = common + seq![PartView::Name(x)] + a;
    let t = common + seq![PartView::Name(y)] + b;
    if common.len() > 0 {
        let rest = common.drop_first();
        law_path_order(rest, x, a, y, b);
        assert(s.drop_first() =~= rest + seq![PartView::Name(x)] + a);
        assert(t.drop_first() =~= rest + seq![PartView::Name(y)] + b);
        assert(s[0] == common[0]);
        assert(t[0] == common[0]);
    } else {
        text::lemma_before_irreflexive(x, x);
        assert(s[0] == PartView::Name(x));
        assert(t[0] == PartView::Name(y));
    }
}

/// A call of a maker of modules in a text: the name behind a dot, a bracket, and
/// a quote, with white space anywhere between them.
pub open spec fn call(
    before: Text,
    name: Text,
    gap: Text,
    inner: Text,
    quote: char,
    after: Text,
) -> Text {
    before + name + gap + "("@ + inner + seq![quote] + after
}

/// A text holds a call of one name with a text as its first argument.
pub open spec fn calls(s: Text, name: Text) -> bool {
    exists|before: Text, gap: Text, inner: Text, quote: char, after: Text|
        s == #[trigger] call(before, name, gap, inner, quote, after) && is_space(gap) && is_space(
            inner,
        ) && (quote == '"' || quote == '\'')
}

proof fn lemma_trimmed(s: Text)
    ensures
        is_space(s.take(s.len() - text::trim_start(s).len())),
        text::trim_start(s).len() <= s.len(),
        s == s.take(s.len() - text::trim_start(s).len()) + text::trim_start(s),
    decreases s.len(),
{
    let t = text::trim_start(s);
    if s.len() > 0 && text::is_white(s[0]) {
        let rest = s.drop_first();
        lemma_trimmed(rest);
        let w = s.take(s.len() - t.len());
        let v = rest.take(rest.len() - t.len());
        assert(w =~= seq![s[0]] + v);
        assert forall|i: int| 0 <= i < w.len() implies text::is_white(#[trigger] w[i]) by {
            if i > 0 {
                assert(text::is_white(v[i - 1]));
            }
        }
        assert(s =~= seq![s[0]] + rest);
        assert(s =~= w + t);
    } else {
        assert(s.take(0) =~= Seq::<char>::empty());
        assert(s =~= s.take(0) + s);
    }
}

/// A file makes a module just where it calls `.Controller`, `.Service` or
/// `.Component` with a text as the first argument.
pub proof fn law_makes_a_module(s: Text)
    ensures
        scan::makes_module(s) <==> calls(s, ".Controller"@) || calls(s, ".Service"@) || calls(
            s,
            ".Component"@,
        ),
{
    lemma_calls(s, ".Controller"@);
    lemma_calls(s, ".Service"@);
    lemma_calls(s, ".Component"@);
}

proof fn lemma_calls(s: Text, name: Text)
    ensures
        scan::calls(s, name) <==> calls(s, name),
{
    if scan::calls(s, name) {
        let i = choose|i: int| #[trigger]
            text::occurs_at(s, name, i) && scan::opens_call(s, i + name.len());
        lemma_call_found(s, name, i);
    }
    if calls(s, name) {
        let (before, gap, inner, quote, after) = choose|
            before: Text,
            gap: Text,
            inner: Text,
            quote: char,
            after: Text,
        |
            s == #[trigger] call(before, name, gap, inner, quote, after) && is_space(gap)
                && is_space(inner) && (quote == '"' || quote == '\'');
        lemma_call_opens(before, name, gap, inner, quote, after);
    }
}

proof fn lemma_call_found(s: Text, name: Text, i: int)
    requires
        text::occurs_at(s, name, i),
        scan::opens_call(s, i + name.len()),
    ensures
        calls(s, name),
{
    reveal_strlit("(");
    let n = i + name.len();
    let tail = s.skip(n);
    let rest = text::trim_start(tail);
    lemma_trimmed(tail);
    let gap = tail.take(tail.len() - rest.len());
    let arg = rest.drop_first();
    let inside = text::trim_start(arg);
    lemma_trimmed(arg);
    let inner = arg.take(arg.len() - inside.len());
    let before = s.take(i);
    let quote = inside[0];
    let after = inside.drop_first();
    assert(inside =~= seq![quote] + after);
    assert(rest =~= "("@ + arg);
    assert(s =~= before + name + tail) by {
        assert(s.subrange(i, n) == name);
        assert(s =~= s.take(i) + s.subrange(i, n) + s.skip(n));
    }
    assert(s =~= call(before, name, gap, inner, quote, after));
}

proof fn lemma_call_opens(
    before: Text,
    name: Text,
    gap: Text,
    inner: Text,
    quote: char,
    after: Text,
)
    requires
        is_space(gap),
        is_space(inner),
        quote == '"' || quote == '\'',
    ensures
        scan::calls(call(before, name, gap, inner, quote, after), name),
{
    reveal_strlit("(");
    let s = call(before, name, gap, inner, quote, after);
    let inside = seq![quote] + after;
    let arg = inner + inside;
    let rest = "("@ + arg;
    let i = before.len() as int;
    assert(s.subrange(i, i + name.len()) =~= name);
    assert(s.skip(i + name.len()) =~= gap + rest);
    assert(rest[0] == '(');
    leaf::lemma_trim_start(gap, rest);
    assert(rest.drop_first() =~= arg);
    assert(inside[0] == quote);
    leaf::lemma_trim_start(inner, inside);
    assert(text::occurs_at(s, name, i));
    assert(scan::opens_call(s, i + name.len()));
}

/// A file is the generator's own where it is named `Type.luau`, or where it lies
/// in what the generator writes.
pub proof fn law_generated(path: Text, resolved: Option<Text>, targets: Seq<Text>)
    ensures
        scan::generated(path, resolved, targets) <==> named(path, "Type.luau"@) || (
        resolved matches Some(p) && exists|i: int|
            0 <= i < targets.len() && paths::under(p, #[trigger] targets[i])),
{
    if resolved is Some {
        let p = resolved->0;
        if exists|i: int| 0 <= i < targets.len() && paths::under(p, #[trigger] targets[i]) {
            let i = choose|i: int| 0 <= i < targets.len() && paths::under(p, #[trigger] targets[i]);
            assert(paths::under(p, targets[i]));
        }
        if scan::within(p, targets) {
            let i = choose|i: int| 0 <= i < targets.len() && #[trigger] paths::under(p, targets[i]);
            assert(paths::under(p, targets[i]));
        }
    }
}

/// A file is watched where it is code and not the generator's own. It can be a
/// module where moreover no folder named `Modux` is in its path.
pub proof fn law_watched(path: Text, resolved: Option<Text>, targets: Seq<Text>)
    ensures
        scan::watched(path, resolved, targets) <==> paths::is_luau(path) && !scan::generated(
            path,
            resolved,
            targets,
        ),
        scan::eligible(path, resolved, targets) <==> scan::watched(path, resolved, targets) && !(
        exists|i: int|
            0 <= i < paths::parts(path).len() && #[trigger] paths::parts(path)[i] == PartView::Name(
                "Modux"@,
            )),
{
    let ps = paths::parts(path);
    let name = PartView::Name("Modux"@);
    if ps.contains(name) {
        let i = choose|i: int| 0 <= i < ps.len() && ps[i] == name;
        assert(paths::parts(path)[i] == name);
    }
}

/// The modules that are a folder's `init` are, in order, those whose file is
/// named so.
pub proof fn law_foldered(modules: Seq<Text>)
    ensures
        scan::foldered(modules) == modules.filter(|m: Text| named(m, "init.luau"@)),
    decreases modules.len(),
{
    reveal(Seq::filter);
    if modules.len() > 0 {
        law_foldered(modules.drop_last());
    }
}

/// The old leaf of a module stood beside it, under the name `Type.luau`.
pub proof fn law_old_leaf(module: Text)
    requires
        paths::parent_of(module) is Some,
    ensures
        scan::old_leaf(module) is Some,
        paths::parts(scan::old_leaf(module)->0) == paths::parts(module).drop_last().push(
            PartView::Name("Type.luau"@),
        ),
{
    paths::law_parent(module);
    let dir = paths::parent_of(module)->0;
    lemma_old_leaf_fits();
    lemma_joined_name(dir, "Type.luau"@);
}

proof fn lemma_joined_name(dir: Text, name: Text)
    requires
        paths::fits(PartView::Name(name), false),
    ensures
        paths::parts(paths::path_join(dir, name)) == paths::parts(dir).push(PartView::Name(name)),
{
    let names = seq![name];
    assert(names[0] == name);
    paths::lemma_below_names(dir, names);
    assert(paths::slashed(names) == name);
    assert(paths::parts(dir) + paths::named(names) =~= paths::parts(dir).push(
        PartView::Name(name),
    ));
}

proof fn lemma_old_leaf_fits()
    ensures
        paths::fits(PartView::Name("Type.luau"@), false),
{
    reveal_strlit("Type.luau");
    reveal_strlit(".");
    reveal_strlit("..");
    let name = "Type.luau"@;
    assert(name.len() == 9);
    assert forall|i: int| 0 <= i < 9 implies name[i] != '/' by {}
}

proof fn lemma_project_file_fits()
    ensures
        paths::fits(PartView::Name("default.project.json"@), false),
{
    reveal_strlit("default.project.json");
    reveal_strlit(".");
    reveal_strlit("..");
    let name = "default.project.json"@;
    assert(name.len() == 20);
    assert forall|i: int| 0 <= i < 20 implies name[i] != '/' by {}
}

/// The old leaves of some modules are those of each of them, in the order of
/// their paths.
pub proof fn law_old_leaves(modules: Seq<Text>)
    ensures
        paths::in_path_order(scan::old_leaves(modules)),
        forall|i: int|
            0 <= i < modules.len() && scan::old_leaf(#[trigger] modules[i]) is Some
                ==> paths::leads_there(
                scan::old_leaves(modules),
                scan::old_leaf(modules[i]).unwrap(),
            ),
        forall|p: Text| #[trigger]
            scan::old_leaves(modules).contains(p) ==> exists|i: int|
                0 <= i < modules.len() && scan::old_leaf(#[trigger] modules[i]) == Some(p),
    decreases modules.len(),
{
    if modules.len() > 0 {
        let rest = modules.drop_last();
        law_old_leaves(rest);
        let some = scan::old_leaves(rest);
        let all = scan::old_leaves(modules);
        let last = modules.last();
        if let Some(leaf) = scan::old_leaf(last) {
            paths::law_with_path(some, leaf);
        }
        assert forall|i: int|
            0 <= i < modules.len() && scan::old_leaf(
                #[trigger] modules[i],
            ) is Some implies paths::leads_there(all, scan::old_leaf(modules[i]).unwrap()) by {
            if i < rest.len() {
                assert(rest[i] == modules[i]);
                let p = scan::old_leaf(modules[i]).unwrap();
                let k = choose|k: int|
                    0 <= k < some.len() && paths::parts(#[trigger] some[k]) == paths::parts(p);
                assert(some.contains(some[k]));
                assert(all.contains(some[k]));
                let m = choose|m: int| 0 <= m < all.len() && all[m] == some[k];
                assert(paths::parts(all[m]) == paths::parts(p));
            }
        }
        assert forall|p: Text| #[trigger] all.contains(p) implies exists|i: int|
            0 <= i < modules.len() && scan::old_leaf(#[trigger] modules[i]) == Some(p) by {
            if some.contains(p) {
                let i = choose|i: int|
                    0 <= i < rest.len() && scan::old_leaf(#[trigger] rest[i]) == Some(p);
                assert(modules[i] == rest[i]);
            } else {
                assert(modules[modules.len() - 1] == last);
            }
        }
    }
}

/// What keeps a module in its folder is, in order, all that the folder holds but
/// the module and an old leaf.
pub proof fn law_leftovers(names: Seq<Text>)
    ensures
        scan::leftovers(names) == names.filter(
            |n: Text| n != "init.luau"@ && n != "Type.luau"@,
        ),
    decreases names.len(),
{
    reveal(Seq::filter);
    if names.len() > 0 {
        law_leftovers(names.drop_last());
    }
}

/// Why a module stays in its folder: first that it has none, then what else the
/// folder holds, then what is in its way. Otherwise it moves to the file with
/// the folder's name.
pub proof fn law_flatten(init: Text, names: Seq<Text>, taken: bool)
    ensures
        ({
            let verdict = scan::flattened(init, names, taken);
            let others = names.filter(|n: Text| n != "init.luau"@ && n != "Type.luau"@);
            match paths::parent_of(init) {
                None => verdict == Err::<(Text, Text), KeptView>(KeptView::NoParent { init }),
                Some(folder) => {
                    &&& others.len() > 0 ==> verdict == Err::<(Text, Text), KeptView>(
                        KeptView::Holds { folder, leftovers: others },
                    )
                    &&& others.len() == 0 && !taken ==> verdict is Ok && verdict->Ok_0.0 == folder
                        && lies_at(verdict->Ok_0.1, folder)
                    &&& others.len() == 0 && taken ==> verdict is Err && (
                    verdict->Err_0 matches KeptView::Taken { folder: f, destination: d } && f
                        == folder && lies_at(d, folder))
                },
            }
        }),
{
    law_leftovers(names);
    reveal_strlit(".luau");
    if let Some(folder) = paths::parent_of(init) {
        if paths::name_of(folder) is Some {
            assert(!".luau"@.contains('/'));
            paths::law_lengthened(folder, ".luau"@);
        }
    }
}

/// A file has the name of a folder, with `.luau`, and is where the folder is. Of
/// a folder that ends in no name it is the path itself.
pub open spec fn lies_at(file: Text, folder: Text) -> bool {
    match paths::name_of(folder) {
        Some(name) => paths::parts(file) == paths::parts(folder).drop_last().push(
            PartView::Name(name + ".luau"@),
        ),
        None => file == folder,
    }
}

/// Why a module stays, in words.
pub proof fn law_kept_in_words(init: Text, folder: Text, names: Seq<Text>, destination: Text)
    ensures
        scan::kept_message(KeptView::NoParent { init }) == init + " has no parent folder"@,
        scan::kept_message(KeptView::Holds { folder, leftovers: names }) == folder
            + " still holds "@ + text::joined(names, ", "@)
            + " — left as a folder on purpose"@,
        scan::kept_message(KeptView::Taken { folder, destination }) == "cannot flatten "@ + folder
            + ": "@ + destination + " already exists"@,
{
}

/// There is something to migrate where a module is a folder's `init`, where an
/// old leaf is left, or where a folder of old leaves is.
pub proof fn law_settled(foldered: Seq<Text>, legacy: Seq<Text>, old_types: bool)
    ensures
        !scan::settled(foldered, legacy, old_types) <==> old_types || foldered.len() > 0
            || legacy.len() > 0,
{
}

/// What a dry run shows of the modules that move: a line for each, in order,
/// from where to where.
pub proof fn law_moves_shown(root: Text, a: Seq<Text>, b: Seq<Text>, init: Text)
    ensures
        scan::flat_lines(root, Seq::empty()) == Seq::<Text>::empty(),
        scan::flat_lines(root, a + b) == scan::flat_lines(root, a) + scan::flat_lines(root, b),
        scan::flat(init) matches Some(to) ==> scan::flat_lines(root, seq![init]) == seq![
            paths::shown(root, init) + "  ->  "@ + paths::shown(root, to),
        ],
        scan::flat(init) matches Some(to) ==> paths::parent_of(init) is Some && lies_at(
            to,
            paths::parent_of(init)->0,
        ),
        scan::flat(init) is None ==> paths::parent_of(init) is None && scan::flat_lines(
            root,
            seq![init],
        ) == Seq::<Text>::empty(),
    decreases b.len(),
{
    assert(seq![init].drop_last() =~= Seq::<Text>::empty());
    assert(scan::flat_lines(root, Seq::empty()) == Seq::<Text>::empty());
    assert(seq![init].last() == init);
    if let Some(to) = scan::flat(init) {
        assert(scan::flat_lines(root, seq![init]) =~= seq![scan::move_line(root, init, to)]);
        law_flatten(init, Seq::empty(), false);
        reveal(Seq::filter);
        assert(scan::leftovers(Seq::empty()) == Seq::<Text>::empty());
        law_leftovers(Seq::empty());
    }
    if b.len() > 0 {
        law_moves_shown(root, a, b.drop_last(), init);
        assert((a + b).drop_last() =~= a + b.drop_last());
        assert((a + b).last() == b.last());
        assert(scan::flat_lines(root, a + b) =~= scan::flat_lines(root, a) + scan::flat_lines(
            root,
            b,
        ));
    } else {
        assert(a + b =~= a);
        assert(scan::flat_lines(root, a) + scan::flat_lines(root, b) =~= scan::flat_lines(root, a));
    }
}

/// What a dry run shows of the old leaves: a line for each, in order, that says
/// that it is removed.
pub proof fn law_removals_shown(root: Text, legacy: Seq<Text>)
    ensures
        scan::gone_lines(root, legacy).len() == legacy.len(),
        forall|i: int|
            0 <= i < legacy.len() ==> #[trigger] scan::gone_lines(root, legacy)[i] == paths::shown(
                root,
                legacy[i],
            ) + "  ->  (removida)"@,
{
}

/// The map is read from the sourcemap that was asked for, seen from the root
/// unless it is an absolute path; without one, from the project file at the
/// root.
pub proof fn law_source(sourcemap: Text, root: Text, absolute: bool)
    ensures
        source::source_of(Some(sourcemap), true, root) == SourceView::Sourcemap(sourcemap),
        source::source_of(Some(sourcemap), false, root) == SourceView::Sourcemap(
            paths::path_join(root, sourcemap),
        ),
        source::source_of(None, absolute, root) is Project,
        paths::parts(source::source_of(None, absolute, root).at()) == paths::parts(root).push(
            PartView::Name("default.project.json"@),
        ),
{
    lemma_project_file_fits();
    lemma_joined_name(root, "default.project.json"@);
}

/// With a project file the layout is that of folders, in `src` unless another
/// folder was asked for; with a sourcemap it is that of the tree, in `sync`.
pub proof fn law_layout(folder: Text, at: Text)
    ensures
        source::layout_of(Some(folder), SourceView::Project(at)) == layout::rogen_layout(folder),
        source::layout_of(Some(folder), SourceView::Sourcemap(at)) == layout::mirror_layout(folder),
        source::layout_of(None, SourceView::Project(at)).source == "src"@,
        source::layout_of(None, SourceView::Sourcemap(at)).source == "sync"@,
        source::layout_of(None, SourceView::Project(at)) == source::layout_of(
            Some("src"@),
            SourceView::Project(at),
        ),
        source::layout_of(None, SourceView::Sourcemap(at)) == source::layout_of(
            Some("sync"@),
            SourceView::Sourcemap(at),
        ),
        layout::rogen_layout(folder).source == folder,
        layout::mirror_layout(folder).source == folder,
{
}

/// Where the project is. A folder that was asked for is it, if it has a project
/// file or a sourcemap was asked for. A sourcemap without a folder has to exist,
/// and then the project is where it is. With neither, the project is searched.
pub proof fn law_root(sourcemap: Text, project: Text, there: bool, has_project: bool)
    ensures
        source::root_of(Some(sourcemap), there, Some(project), has_project) == RootView::At(project),
        source::root_of(None, there, Some(project), true) == RootView::At(project),
        source::root_of(None, there, Some(project), false) == RootView::NoProject(project),
        source::root_of(None, there, None, has_project) == RootView::Search,
        source::root_of(Some(sourcemap), false, None, has_project) == RootView::NoSourcemap(
            sourcemap,
        ),
        ({
            let found = source::root_of(Some(sourcemap), true, None, has_project);
            &&& found matches RootView::At(dir) ==> dir.len() > 0 && paths::parts(dir)
                == paths::parts(sourcemap).drop_last()
            &&& found is At || found is Current
            &&& found is Current <==> paths::parent_of(sourcemap) is None || paths::parent_of(
                sourcemap,
            )->0.len() == 0
        }),
{
    if paths::parent_of(sourcemap) is Some {
        paths::law_parent(sourcemap);
    }
}

/// The search for a project file stops where there is one, goes one folder up
/// where there is none, and ends where there is no folder above.
pub proof fn law_climb(current: Text)
    ensures
        source::climbed(current, true) is Found,
        source::climbed(current, false) is Up <==> paths::parts(current).len() > 0 && paths::parts(
            current,
        ).last() != PartView::Root,
        source::climbed(current, false) matches ClimbView::Up(p) ==> paths::parts(p)
            == paths::parts(current).drop_last(),
        source::climbed(current, false) is Up || source::climbed(current, false) is Lost,
{
    if paths::parent_of(current) is Some {
        paths::law_parent(current);
    }
}

/// The sourcemap on disk is made from a project file. One that is itself the
/// source belongs to who writes it.
pub proof fn law_who_owns_the_sourcemap(p: Text)
    ensures
        SourceView::Project(p).derives(),
        !SourceView::Sourcemap(p).derives(),
        SourceView::Project(p).at() == p,
        SourceView::Sourcemap(p).at() == p,
{
}

/// The root comes before a dot, a dot before two dots, and those before any name.
pub proof fn law_path_order_of_others(common: Seq<PartView>, name: Text)
    ensures
        paths::parts_before(common.push(PartView::Root), common.push(PartView::Here)),
        paths::parts_before(common.push(PartView::Here), common.push(PartView::Up)),
        paths::parts_before(common.push(PartView::Up), common.push(PartView::Name(name))),
    decreases common.len(),
{
    let others = seq![PartView::Root, PartView::Here, PartView::Up, PartView::Name(name)];
    if common.len() > 0 {
        let rest = common.drop_first();
        law_path_order_of_others(rest, name);
        assert forall|i: int| 0 <= i < 4 implies common.push(#[trigger] others[i]).drop_first()
            == rest.push(others[i]) by {
            assert(common.push(others[i]).drop_first() =~= rest.push(others[i]));
        }
        assert(others[0] == PartView::Root);
        assert(others[1] == PartView::Here);
        assert(others[2] == PartView::Up);
        assert(others[3] == PartView::Name(name));
    }
}

} // verus!
