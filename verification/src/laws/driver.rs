//! Laws of the listing, of a pass over the project, and of what it reports.

use vstd::prelude::*;

use crate::emit;
use crate::layout::{self, LayoutView};
use crate::manifest::{self, Shelved};
use crate::module::ModuleView;
use crate::pass::{self, FileText};
use crate::paths::{self, PartView};
use crate::rojo::{self, MapFault, Side};
use crate::scan;
use crate::table::{self, Rows};
use crate::text::{self, Text};

verus! {

/// Nothing but spaces.
pub open spec fn blank(s: Text) -> bool {
    forall|i: int| 0 <= i < s.len() ==> #[trigger] s[i] == ' '
}

/// `s` begins with `p`.
pub open spec fn begins(s: Text, p: Text) -> bool {
    p.len() <= s.len() && s.take(p.len() as int) == p
}

/// `s` ends with `p`.
pub open spec fn ends(s: Text, p: Text) -> bool {
    p.len() <= s.len() && s.skip(s.len() - p.len()) == p
}

/// A text in a column keeps its characters, has only spaces after them, fills
/// the column, and is longer than the column only where the text is.
pub proof fn law_column(s: Text, width: nat)
    ensures
        begins(text::padded(s, width), s),
        blank(text::padded(s, width).skip(s.len() as int)),
        s.len() <= width ==> text::padded(s, width).len() == width,
        s.len() > width ==> text::padded(s, width) == s,
    decreases width - s.len(),
{
    if s.len() < width {
        law_column(s.push(' '), width);
        let all = text::padded(s, width);
        let more = s.push(' ');
        assert(all.take(s.len() as int) =~= s) by {
            assert forall|i: int| 0 <= i < s.len() implies all[i] == s[i] by {
                assert(all.take(more.len() as int)[i] == more[i]);
            }
        }
        assert forall|i: int| 0 <= i < all.skip(s.len() as int).len() implies all.skip(
            s.len() as int,
        )[i] == ' ' by {
            if i == 0 {
                assert(all.take(more.len() as int)[s.len() as int] == more[s.len() as int]);
            } else {
                assert(all.skip(more.len() as int)[i - 1] == ' ');
            }
        }
    } else {
        assert(s.take(s.len() as int) =~= s);
    }
}

/// Each piece stands in the text that they are put together to, the first at
/// its beginning and the last at its end.
pub proof fn law_joined_holds(parts: Seq<Text>, sep: Text)
    ensures
        parts.len() == 0 ==> text::joined(parts, sep).len() == 0,
        parts.len() > 0 ==> begins(text::joined(parts, sep), parts[0]),
        parts.len() > 0 ==> ends(text::joined(parts, sep), parts.last()),
        forall|i: int|
            0 <= i < parts.len() ==> stands_in(text::joined(parts, sep), #[trigger] parts[i]),
    decreases parts.len(),
{
    let all = text::joined(parts, sep);
    if parts.len() == 1 {
        assert(all.take(all.len() as int) =~= all);
        assert(all.skip(0) =~= all);
        assert(all.subrange(0, all.len() as int) =~= all);
        assert(text::occurs_at(all, parts[0], 0));
    } else if parts.len() > 1 {
        let some = parts.drop_last();
        law_joined_holds(some, sep);
        let head = text::joined(some, sep);
        assert(all == head + sep + parts.last());
        assert(some[0] == parts[0]);
        assert(all.take(parts[0].len() as int) =~= head.take(parts[0].len() as int));
        assert(all.skip(all.len() - parts.last().len()) =~= parts.last());
        assert forall|i: int| 0 <= i < parts.len() implies stands_in(
            all,
            #[trigger] parts[i],
        ) by {
            if i < some.len() {
                assert(some[i] == parts[i]);
                let k = choose|k: int| text::occurs_at(head, parts[i], k);
                assert(all.subrange(k, k + parts[i].len()) =~= head.subrange(
                    k,
                    k + parts[i].len(),
                ));
                assert(text::occurs_at(all, parts[i], k));
            } else {
                let k = (head.len() + sep.len()) as int;
                assert(all.subrange(k, k + parts[i].len()) =~= parts[i]);
                assert(text::occurs_at(all, parts[i], k));
            }
        }
    }
}

/// `p` stands somewhere in `s`.
pub open spec fn stands_in(s: Text, p: Text) -> bool {
    exists|k: int| text::occurs_at(s, p, k)
}

/// A line with two columns, a file, and something behind `deps: `.
pub open spec fn listed(id: Text, kind: Text, file: Text, deps: Text) -> Text {
    id + " "@ + kind + " "@ + file + "  deps: "@ + deps
}

/// `deps` is what a line of the listing has at its end behind `deps: `, after
/// the module's id, its kind and its file, the first two followed by spaces.
pub open spec fn lists(line: Text, m: ModuleView, deps: Text) -> bool {
    exists|a: Text, b: Text|
        #![trigger listed(m.id + a, m.kind + b, m.file, deps)]
        {
            &&& blank(a)
            &&& blank(b)
            &&& m.id.len() < 12 ==> m.id.len() + a.len() == 12
            &&& m.id.len() >= 12 ==> a.len() == 0
            &&& m.kind.len() < 10 ==> m.kind.len() + b.len() == 10
            &&& m.kind.len() >= 10 ==> b.len() == 0
            &&& line == listed(m.id + a, m.kind + b, m.file, deps)
        }
}

/// The line of a module in the listing names its id, its kind and its file. It
/// ends in `deps: -` where the module declares no require. Where it declares
/// some, their ids, with commas between, are all that stands behind `deps: `,
/// each of them in its turn.
pub proof fn law_listing(m: ModuleView)
    ensures
        m.declared_require.len() == 0 ==> lists(pass::list_line(m), m, "-"@),
        m.declared_require.len() > 0 ==> lists(
            pass::list_line(m),
            m,
            text::joined(m.declared_require, ", "@),
        ),
        forall|i: int|
            0 <= i < m.declared_require.len() ==> stands_in(
                text::joined(m.declared_require, ", "@),
                #[trigger] m.declared_require[i],
            ),
{
    let line = pass::list_line(m);
    let deps = if m.declared_require.len() == 0 {
        "-"@
    } else {
        text::joined(m.declared_require, ", "@)
    };
    law_column(m.id, 12);
    law_column(m.kind, 10);
    law_joined_holds(m.declared_require, ", "@);
    let a = text::padded(m.id, 12).skip(m.id.len() as int);
    let b = text::padded(m.kind, 10).skip(m.kind.len() as int);
    let id = text::padded(m.id, 12);
    let kind = text::padded(m.kind, 10);
    assert(id =~= id.take(m.id.len() as int) + a);
    assert(kind =~= kind.take(m.kind.len() as int) + b);
    assert(line == listed(m.id + a, m.kind + b, m.file, deps));
}

/// A line of the listing ends in `deps: -` exactly where the module declares no
/// require. (An id that itself holds a `-` would blur this.)
pub proof fn law_no_deps_only_without(m: ModuleView)
    requires
        forall|i: int|
            0 <= i < m.declared_require.len() ==> (#[trigger] m.declared_require[i]).len() > 0
                && !m.declared_require[i].contains('-'),
    ensures
        ends(pass::list_line(m), "deps: -"@) <==> m.declared_require.len() == 0,
{
    reveal_strlit("deps: -");
    let line = pass::list_line(m);
    if m.declared_require.len() == 0 {
        reveal_strlit("  deps: ");
        reveal_strlit("-");
        assert(line.skip(line.len() - 7) =~= "deps: -"@);
    } else {
        let deps = text::joined(m.declared_require, ", "@);
        law_joined_holds(m.declared_require, ", "@);
        let last = m.declared_require.last();
        assert(m.declared_require[m.declared_require.len() - 1] == last);
        assert(deps.skip(deps.len() - last.len())[last.len() - 1] == last[last.len() - 1]);
        assert(line[line.len() - 1] == deps[deps.len() - 1]);
        assert(last.contains(last[last.len() - 1]));
        if ends(line, "deps: -"@) {
            assert(line.skip(line.len() - 7)[6] == "deps: -"@[6]);
        }
    }
}

/// The first `n` numbers.
pub open spec fn first_numbers(n: nat) -> Seq<int> {
    Seq::new(n, |i: int| i)
}

proof fn lemma_first_numbers(n: nat, p: spec_fn(int) -> bool)
    requires
        n > 0,
    ensures
        first_numbers(n).filter(p) == if p(n - 1) {
            first_numbers((n - 1) as nat).filter(p).push(n - 1)
        } else {
            first_numbers((n - 1) as nat).filter(p)
        },
{
    reveal(Seq::filter);
    assert(first_numbers(n).drop_last() =~= first_numbers((n - 1) as nat));
    assert(first_numbers(n).last() == n - 1);
}

/// A file whose text is not that on disk.
pub open spec fn stale(expected: Seq<FileText>, on_disk: Seq<Option<Text>>, i: int) -> bool {
    i >= on_disk.len() || on_disk[i] != Some(expected[i].1)
}

/// What a check reports is the files that hold something else than they are to
/// hold, or are not there: each of those, in order, and no other.
pub proof fn law_check_reports(expected: Seq<FileText>, on_disk: Seq<Option<Text>>)
    ensures
        pass::out_of_date(expected, on_disk) == first_numbers(expected.len()).filter(
            |i: int| stale(expected, on_disk, i),
        ).map_values(|i: int| expected[i].0),
    decreases expected.len(),
{
    lemma_check_reports(expected, on_disk, expected.len());
    assert(expected.take(expected.len() as int) =~= expected);
}

proof fn lemma_check_reports(expected: Seq<FileText>, on_disk: Seq<Option<Text>>, n: nat)
    requires
        n <= expected.len(),
    ensures
        pass::out_of_date(expected.take(n as int), on_disk) == first_numbers(n).filter(
            |i: int| stale(expected, on_disk, i),
        ).map_values(|i: int| expected[i].0),
    decreases n,
{
    let p = |i: int| stale(expected, on_disk, i);
    let f = |i: int| expected[i].0;
    if n > 0 {
        let m = (n - 1) as nat;
        lemma_check_reports(expected, on_disk, m);
        lemma_first_numbers(n, p);
        let some = first_numbers(m).filter(p);
        assert(some.push(n - 1).map_values(f) =~= some.map_values(f).push(f(n - 1)));
        assert(expected.take(n as int).drop_last() =~= expected.take(m as int));
    } else {
        reveal(Seq::filter);
        assert(first_numbers(0).filter(p) =~= Seq::<int>::empty());
        assert(first_numbers(0).filter(p).map_values(f) =~= Seq::<Text>::empty());
    }
}

/// The modules that a pass read are those that are marked, in order.
pub proof fn law_newly(ms: Seq<ModuleView>, fresh: Seq<bool>)
    ensures
        pass::newly(ms, fresh) == first_numbers(ms.len()).filter(
            |i: int| i < fresh.len() && fresh[i],
        ).map_values(|i: int| ms[i]),
{
    lemma_newly(ms, fresh, ms.len());
    assert(ms.take(ms.len() as int) =~= ms);
}

proof fn lemma_newly(ms: Seq<ModuleView>, fresh: Seq<bool>, n: nat)
    requires
        n <= ms.len(),
    ensures
        pass::newly(ms.take(n as int), fresh) == first_numbers(n).filter(
            |i: int| i < fresh.len() && fresh[i],
        ).map_values(|i: int| ms[i]),
    decreases n,
{
    let p = |i: int| i < fresh.len() && fresh[i];
    let f = |i: int| ms[i];
    if n > 0 {
        let m = (n - 1) as nat;
        lemma_newly(ms, fresh, m);
        lemma_first_numbers(n, p);
        let some = first_numbers(m).filter(p);
        assert(some.push(n - 1).map_values(f) =~= some.map_values(f).push(f(n - 1)));
        assert(ms.take(n as int).drop_last() =~= ms.take(m as int));
    } else {
        reveal(Seq::filter);
        assert(first_numbers(0).filter(p) =~= Seq::<int>::empty());
        assert(first_numbers(0).filter(p).map_values(f) =~= Seq::<ModuleView>::empty());
    }
}

/// What a sweep removes is, in order, the files of code that are the leaf of no
/// module.
pub proof fn law_swept(
    listing: Seq<Text>,
    ms: Seq<ModuleView>,
    sides: Rows<Side>,
    layout: LayoutView,
)
    ensures
        pass::abandoned(listing, ms, sides, layout) == listing.filter(
            |p: Text| paths::is_luau(p) && !pass::is_leaf_of(p, ms, sides, layout),
        ),
    decreases listing.len(),
{
    reveal(Seq::filter);
    if listing.len() > 0 {
        law_swept(listing.drop_last(), ms, sides, layout);
    }
}

/// What the generator writes: the Manifests, the module lists, the folders of
/// the leaves, and the list of the libraries.
pub proof fn law_written(layout: LayoutView, p: Text)
    ensures
        pass::written_paths(layout).contains(p) <==> ({
            ||| exists|i: int| 0 <= i < layout.targets.len() && (#[trigger] layout.targets[i]).1 == p
            ||| exists|i: int|
                0 <= i < layout.module_lists.len() && (#[trigger] layout.module_lists[i]).1 == p
            ||| exists|i: int|
                0 <= i < layout.types_dirs.len() && (#[trigger] layout.types_dirs[i]).1 == p
            ||| p == layout.libs_target
        }),
        pass::written_paths(layout).len() == layout.targets.len() + layout.module_lists.len()
            + layout.types_dirs.len() + 1,
{
    let all = pass::written_paths(layout);
    let a = layout.targets.len() as int;
    let b = a + layout.module_lists.len();
    let c = b + layout.types_dirs.len();
    if all.contains(p) {
        let k = choose|k: int| 0 <= k < all.len() && all[k] == p;
        if k < a {
            assert(layout.targets[k].1 == p);
        } else if k < b {
            assert(layout.module_lists[k - a].1 == p);
        } else if k < c {
            assert(layout.types_dirs[k - b].1 == p);
        }
    }
    assert forall|i: int| 0 <= i < layout.targets.len() implies all.contains(
        (#[trigger] layout.targets[i]).1,
    ) by {
        assert(all[i] == layout.targets[i].1);
    }
    assert forall|i: int| 0 <= i < layout.module_lists.len() implies all.contains(
        (#[trigger] layout.module_lists[i]).1,
    ) by {
        assert(all[a + i] == layout.module_lists[i].1);
    }
    assert forall|i: int| 0 <= i < layout.types_dirs.len() implies all.contains(
        (#[trigger] layout.types_dirs[i]).1,
    ) by {
        assert(all[b + i] == layout.types_dirs[i].1);
    }
    assert(all[c] == layout.libs_target);
}

/// A module has a place in the game.
pub open spec fn placed(m: ModuleView, entries: Rows<Seq<Text>>) -> bool {
    rojo::path_of(entries, m.file) is Ok
}

/// The leaves of some modules are there just where every module has a place.
#[verifier::spinoff_prover]
#[verifier::rlimit(40)]
pub proof fn law_leaves_of_placed_modules(
    ms: Seq<ModuleView>,
    sides: Rows<Side>,
    entries: Rows<Seq<Text>>,
    layout: LayoutView,
)
    ensures
        pass::leaf_entries(ms, sides, entries, layout) is Ok <==> forall|i: int|
            0 <= i < ms.len() ==> placed(#[trigger] ms[i], entries),
    decreases ms.len(),
{
    if ms.len() > 0 {
        let some = ms.drop_last();
        law_leaves_of_placed_modules(some, sides, entries, layout);
        let made = pass::leaf_entries(ms, sides, entries, layout);
        let last = pass::leaf_entry(ms.last(), sides, entries, layout);
        assert(last is Ok <==> placed(ms.last(), entries));
        assert(made is Ok <==> pass::leaf_entries(some, sides, entries, layout) is Ok
            && last is Ok);
        if made is Ok {
            assert forall|i: int| 0 <= i < ms.len() implies placed(#[trigger] ms[i], entries) by {
                if i < some.len() {
                    assert(placed(some[i], entries));
                }
            }
        } else if forall|i: int| 0 <= i < ms.len() ==> placed(#[trigger] ms[i], entries) {
            assert(placed(ms[ms.len() - 1], entries));
            assert forall|i: int| 0 <= i < some.len() implies placed(
                #[trigger] some[i],
                entries,
            ) by {
                assert(placed(ms[i], entries));
            }
        }
    }
}

/// Where a module has no place, the fault is that of the first such module.
#[verifier::spinoff_prover]
#[verifier::rlimit(40)]
pub proof fn law_first_module_without_a_place(
    ms: Seq<ModuleView>,
    k: int,
    sides: Rows<Side>,
    entries: Rows<Seq<Text>>,
    layout: LayoutView,
)
    requires
        0 <= k < ms.len(),
        !placed(ms[k], entries),
        forall|i: int| 0 <= i < k ==> placed(#[trigger] ms[i], entries),
    ensures
        pass::leaf_entries(ms, sides, entries, layout) == Err::<Seq<FileText>, MapFault>(
            rojo::path_of(entries, ms[k].file)->Err_0,
        ),
    decreases ms.len(),
{
    let some = ms.drop_last();
    assert forall|i: int| 0 <= i < k implies placed(#[trigger] some[i], entries) by {
        assert(placed(ms[i], entries));
    }
    if k < some.len() {
        assert(some[k] == ms[k]);
        law_first_module_without_a_place(some, k, sides, entries, layout);
    } else {
        assert(ms.last() == ms[k]);
        law_leaves_of_placed_modules(some, sides, entries, layout);
    }
}

/// The leaf of a module goes into the folder of the module's side, under the
/// module's id, and holds the module's type as seen from its place.
pub proof fn law_leaf_goes(
    m: ModuleView,
    side: Side,
    dir: Text,
    sides: Rows<Side>,
    entries: Rows<Seq<Text>>,
    layout: LayoutView,
)
    requires
        table::get(sides, m.id) == Some(side),
        layout::types_dir_of(layout.types_dirs, side) == Some(dir),
        m.id.len() > 0,
        !m.id.contains('/'),
        rojo::path_of(entries, m.file) is Ok,
    ensures
        pass::leaf_entry(m, sides, entries, layout) is Ok,
        paths::parts(pass::leaf_entry(m, sides, entries, layout)->Ok_0.0) == paths::parts(dir).push(
            PartView::Name(m.id + ".luau"@),
        ),
        pass::leaf_entry(m, sides, entries, layout)->Ok_0.1 == emit::leaf_text(
            m,
            rojo::path_of(entries, m.file)->Ok_0,
        ),
{
    law_leaf_file(dir, m.id);
}

/// A leaf is a file of code with the module's id as its name.
pub proof fn law_leaf_file(dir: Text, id: Text)
    requires
        id.len() > 0,
        !id.contains('/'),
    ensures
        forall|layout: LayoutView, side: Side|
            layout::types_dir_of(layout.types_dirs, side) == Some(dir) ==> (
            #[trigger] emit::leaf_of(layout, side, id)) is Some && paths::parts(
                emit::leaf_of(layout, side, id)->0,
            ) == paths::parts(dir).push(PartView::Name(id + ".luau"@)),
{
    reveal_strlit(".luau");
    reveal_strlit(".");
    reveal_strlit("..");
    let name = id + ".luau"@;
    assert(!name.contains('/')) by {
        if name.contains('/') {
            let i = choose|i: int| 0 <= i < name.len() && name[i] == '/';
            if i < id.len() {
                assert(id[i] == '/');
            }
        }
    }
    let names = seq![name];
    assert(paths::fits(PartView::Name(names[0]), false));
    paths::lemma_below_names(dir, names);
    assert(paths::slashed(names) =~= name);
    assert(paths::parts(dir) + paths::named(names) =~= paths::parts(dir).push(
        PartView::Name(name),
    ));
}

/// The folder of leaves that a path in the game lies below is the first whose
/// instance, followed by a dot, the path begins with.
pub proof fn law_home_above(homes: Seq<(Text, Text)>, place: Text)
    ensures
        pass::home_above(homes, place) is Some <==> exists|i: int|
            0 <= i < homes.len() && below(place, #[trigger] homes[i].0),
        forall|i: int|
            #![trigger homes[i]]
            0 <= i < homes.len() && below(place, homes[i].0) && (forall|j: int|
                0 <= j < i ==> !below(place, #[trigger] homes[j].0)) ==> pass::home_above(
                homes,
                place,
            ) == Some(homes[i]),
    decreases homes.len(),
{
    if homes.len() > 0 {
        let rest = homes.drop_first();
        law_home_above(rest, place);
        lemma_below_is_prefix(place, homes[0].0);
        if pass::home_above(homes, place) is Some && !below(place, homes[0].0) {
            let i = choose|i: int| 0 <= i < rest.len() && below(place, #[trigger] rest[i].0);
            assert(homes[i + 1] == rest[i]);
            assert(below(place, homes[i + 1].0));
        }
        assert forall|i: int|
            #![trigger homes[i]]
            0 <= i < homes.len() && below(place, homes[i].0) implies pass::home_above(
            homes,
            place,
        ) is Some by {
            if i > 0 {
                assert(rest[i - 1] == homes[i]);
                assert(below(place, rest[i - 1].0));
            }
        }
        assert forall|i: int|
            #![trigger homes[i]]
            0 <= i < homes.len() && below(place, homes[i].0) && (forall|j: int|
                0 <= j < i ==> !below(
                    place,
                    #[trigger] homes[j].0,
                )) implies pass::home_above(homes, place) == Some(homes[i]) by {
            if i > 0 {
                assert(!below(place, homes[0].0));
                assert(rest[i - 1] == homes[i]);
                assert forall|j: int| 0 <= j < i - 1 implies !below(
                    place,
                    #[trigger] rest[j].0,
                ) by {
                    assert(rest[j] == homes[j + 1]);
                    assert(!below(place, homes[j + 1].0));
                }
            }
        }
    }
}

/// A path in the game is that of an instance, a dot, and something behind.
pub open spec fn below(place: Text, instance: Text) -> bool {
    exists|rest: Text| place == #[trigger] behind_dot(instance, rest)
}

/// An instance, a dot, and something behind.
pub open spec fn behind_dot(instance: Text, rest: Text) -> Text {
    instance + "."@ + rest
}

proof fn lemma_below_is_prefix(place: Text, instance: Text)
    ensures
        below(place, instance) <==> instance.push('.').is_prefix_of(place),
{
    reveal_strlit(".");
    assert(instance + "."@ =~= instance.push('.'));
    let n = instance.len() + 1;
    if instance.push('.').is_prefix_of(place) {
        assert(place =~= behind_dot(instance, place.skip(n as int)));
    }
    if below(place, instance) {
        let rest = choose|rest: Text| place == #[trigger] behind_dot(instance, rest);
        assert(instance.push('.') =~= place.subrange(0, n as int));
    }
}

/// A file of code shows a collision just where it is in no folder of leaves and
/// lies, in the game, below an instance that holds leaves. The collision names
/// the file, that instance and its folder.
#[verifier::spinoff_prover]
#[verifier::rlimit(40)]
pub proof fn law_collision_of(
    file: Text,
    root: Text,
    homes: Seq<(Text, Text)>,
    entries: Rows<Seq<Text>>,
    layout: LayoutView,
)
    ensures
        ({
            let found = pass::collision_of(file, root, homes, entries, layout);
            let seen = paths::relative(file, root);
            let place = rojo::path_of(entries, seen);
            &&& found is Some <==> {
                &&& paths::is_luau(file)
                &&& !(exists|i: int|
                    0 <= i < layout.types_dirs.len() && paths::under(
                        seen,
                        #[trigger] layout.types_dirs[i].1,
                    ))
                &&& place is Ok
                &&& exists|i: int| 0 <= i < homes.len() && below(place->Ok_0, #[trigger] homes[i].0)
            }
            &&& found matches Some(c) ==> c.file == file && homes.contains((c.instance, c.dir))
                && below(place->Ok_0, c.instance)
        }),
{
    let seen = paths::relative(file, root);
    let place = rojo::path_of(entries, seen);
    let dirs = pass::second(layout.types_dirs);
    assert forall|i: int| 0 <= i < dirs.len() implies #[trigger] dirs[i] == layout.types_dirs[i].1 by {}
    if scan::within(seen, dirs) {
        let i = choose|i: int| 0 <= i < dirs.len() && #[trigger] paths::under(seen, dirs[i]);
        assert(paths::under(seen, layout.types_dirs[i].1));
    } else {
        assert forall|i: int| 0 <= i < layout.types_dirs.len() implies !paths::under(
            seen,
            #[trigger] layout.types_dirs[i].1,
        ) by {
            assert(!paths::under(seen, dirs[i]));
        }
    }
    if place is Ok {
        law_home_above(homes, place->Ok_0);
        lemma_home_above(homes, place->Ok_0);
    }
}

proof fn lemma_home_above(homes: Seq<(Text, Text)>, place: Text)
    ensures
        pass::home_above(homes, place) matches Some(h) ==> homes.contains(h) && below(place, h.0),
    decreases homes.len(),
{
    if homes.len() > 0 {
        let rest = homes.drop_first();
        lemma_below_is_prefix(place, homes[0].0);
        lemma_home_above(rest, place);
        if pass::home_above(rest, place) is Some {
            let h = pass::home_above(rest, place)->0;
            let i = choose|i: int| 0 <= i < rest.len() && rest[i] == h;
            assert(homes[i + 1] == h);
        }
        assert(homes.contains(homes[0]));
    }
}

/// The collision that is reported is that of the first file that shows one.
pub proof fn law_first_collision(
    before: Seq<Text>,
    file: Text,
    after: Seq<Text>,
    root: Text,
    homes: Seq<(Text, Text)>,
    entries: Rows<Seq<Text>>,
    layout: LayoutView,
)
    requires
        forall|i: int|
            0 <= i < before.len() ==> pass::collision_of(
                #[trigger] before[i],
                root,
                homes,
                entries,
                layout,
            ) is None,
    ensures
        pass::first_collision(before, root, homes, entries, layout) is None,
        pass::collision_of(file, root, homes, entries, layout) is Some ==> pass::first_collision(
            before + seq![file] + after,
            root,
            homes,
            entries,
            layout,
        ) == pass::collision_of(file, root, homes, entries, layout),
    decreases before.len(),
{
    let all = before + seq![file] + after;
    if before.len() > 0 {
        let rest = before.drop_first();
        assert forall|i: int| 0 <= i < rest.len() implies pass::collision_of(
            #[trigger] rest[i],
            root,
            homes,
            entries,
            layout,
        ) is None by {
            assert(rest[i] == before[i + 1]);
        }
        law_first_collision(rest, file, after, root, homes, entries, layout);
        assert(all.drop_first() =~= rest + seq![file] + after);
        assert(all[0] == before[0]);
    } else {
        assert(all[0] == file);
    }
}

/// The instance that holds a leaf is that of the leaf's path without its last
/// name, and the folder is the one that the leaf is in.
pub proof fn law_leaf_home(
    m: ModuleView,
    home: Text,
    name: Text,
    sides: Rows<Side>,
    entries: Rows<Seq<Text>>,
    layout: LayoutView,
)
    requires
        !name.contains('.'),
        rojo::path_of(entries, manifest::leaf_file(layout, sides, m.id)) == Ok::<Text, MapFault>(
            behind_dot(home, name),
        ),
        paths::parent_of(manifest::leaf_file(layout, sides, m.id)) is Some,
    ensures
        pass::leaf_home(m, sides, entries, layout) matches Some(h) && h.0 == home && paths::parts(
            h.1,
        ) == paths::parts(manifest::leaf_file(layout, sides, m.id)).drop_last(),
{
    let place = behind_dot(home, name);
    reveal_strlit(".");
    assert(place =~= home.push('.') + name);
    lemma_before_last(home, '.', name);
    paths::law_parent(manifest::leaf_file(layout, sides, m.id));
}

/// A text before its last separator.
pub proof fn lemma_before_last(a: Text, sep: char, b: Text)
    requires
        !b.contains(sep),
    ensures
        text::before_last(a.push(sep) + b, sep) == Some(a),
    decreases b.len(),
{
    let s = a.push(sep) + b;
    if b.len() > 0 {
        assert(b.contains(b.last()));
        let c = b.drop_last();
        assert(!c.contains(sep)) by {
            if c.contains(sep) {
                let i = choose|i: int| 0 <= i < c.len() && c[i] == sep;
                assert(b[i] == sep);
            }
        }
        lemma_before_last(a, sep, c);
        assert(s.drop_last() =~= a.push(sep) + c);
    } else {
        assert(s =~= a.push(sep));
        assert(s.drop_last() =~= a);
    }
}

/// The instances that hold leaves are those of the modules' leaves, each once.
#[verifier::spinoff_prover]
#[verifier::rlimit(40)]
pub proof fn law_leaf_homes(
    ms: Seq<ModuleView>,
    sides: Rows<Side>,
    entries: Rows<Seq<Text>>,
    layout: LayoutView,
)
    ensures
        forall|i: int|
            0 <= i < ms.len() && pass::leaf_home(#[trigger] ms[i], sides, entries, layout) is Some
                ==> table::keys(pass::leaf_homes(ms, sides, entries, layout)).contains(
                pass::leaf_home(ms[i], sides, entries, layout).unwrap().0,
            ),
        forall|k: int|
            0 <= k < pass::leaf_homes(ms, sides, entries, layout).len() ==> is_home_of(
                #[trigger] pass::leaf_homes(ms, sides, entries, layout)[k],
                ms,
                sides,
                entries,
                layout,
            ),
        forall|j: int, k: int|
            0 <= j < k < pass::leaf_homes(ms, sides, entries, layout).len() ==> (
            #[trigger] pass::leaf_homes(ms, sides, entries, layout)[j]).0 != (
            #[trigger] pass::leaf_homes(ms, sides, entries, layout)[k]).0,
    decreases ms.len(),
{
    if ms.len() > 0 {
        let rest = ms.drop_last();
        law_leaf_homes(rest, sides, entries, layout);
        let some = pass::leaf_homes(rest, sides, entries, layout);
        let all = pass::leaf_homes(ms, sides, entries, layout);
        assert forall|p: Text| #[trigger] table::keys(some).contains(p) implies table::keys(
            all,
        ).contains(p) by {
            let k = choose|k: int| 0 <= k < table::keys(some).len() && table::keys(some)[k] == p;
            assert(table::keys(all)[k] == p);
        }
        assert forall|i: int|
            0 <= i < ms.len() && pass::leaf_home(
                #[trigger] ms[i],
                sides,
                entries,
                layout,
            ) is Some implies table::keys(all).contains(
            pass::leaf_home(ms[i], sides, entries, layout).unwrap().0,
        ) by {
            if i < rest.len() {
                assert(rest[i] == ms[i]);
            } else {
                let home = pass::leaf_home(ms[i], sides, entries, layout)->0;
                if !table::keys(some).contains(home.0) {
                    assert(table::keys(all)[all.len() - 1] == home.0);
                }
            }
        }
        assert forall|k: int| 0 <= k < all.len() implies is_home_of(
            #[trigger] all[k],
            ms,
            sides,
            entries,
            layout,
        ) by {
            if k < some.len() {
                assert(all[k] == some[k]);
                let i = choose|i: int|
                    0 <= i < rest.len() && pass::leaf_home(
                        #[trigger] rest[i],
                        sides,
                        entries,
                        layout,
                    ) == Some(some[k]);
                assert(ms[i] == rest[i]);
            } else {
                assert(ms[ms.len() - 1] == ms.last());
            }
        }
        assert forall|j: int, k: int| 0 <= j < k < all.len() implies (#[trigger] all[j]).0 != (
        #[trigger] all[k]).0 by {
            assert(all[j] == some[j]);
            if k < some.len() {
                assert(all[k] == some[k]);
            } else {
                assert(table::keys(some)[j] == some[j].0);
            }
        }
    }
}

/// An instance, with a folder, that holds the leaf of one of some modules.
pub open spec fn is_home_of(
    home: (Text, Text),
    ms: Seq<ModuleView>,
    sides: Rows<Side>,
    entries: Rows<Seq<Text>>,
    layout: LayoutView,
) -> bool {
    exists|i: int|
        0 <= i < ms.len() && pass::leaf_home(#[trigger] ms[i], sides, entries, layout) == Some(home)
}

/// A collision in words names the folder and the file, says that they become
/// one instance, names that instance, and says what to do.
pub proof fn law_collision_in_words(dir: Text, file: Text, instance: Text)
    ensures
        pass::collision_message(dir, file, instance) == dir + " e "@ + file
            + " viram a MESMA instancia ("@ + instance
            + ").\n  Quando duas pastas se fundem e ha nome repetido, uma some do project file sem aviso.\n  Renomeie a pasta do projeto, ou o modulo."@,
{
}

/// The leaf of any id is the id with `.luau`, seen from the folder of its side;
/// a side without a folder has none.
pub proof fn law_leaf_of_an_id(layout: LayoutView, side: Side, id: Text)
    ensures
        match layout::types_dir_of(layout.types_dirs, side) {
            Some(dir) => emit::leaf_of(layout, side, id) == Some(
                paths::path_join(dir, id + ".luau"@),
            ),
            None => emit::leaf_of(layout, side, id) is None,
        },
{
}

/// The files of a project are there just where each of them can be made: every
/// leaf, every Manifest, every module list, and the libraries.
#[verifier::spinoff_prover]
#[verifier::rlimit(40)]
pub proof fn law_all_files_or_none(
    root: Text,
    ms: Seq<ModuleView>,
    sides: Rows<Side>,
    entries: Rows<Seq<Text>>,
    layout: LayoutView,
    shelved: Seq<(Text, Shelved)>,
)
    ensures
        pass::generation(root, ms, sides, entries, layout, shelved) is Ok <==> {
            &&& forall|i: int| 0 <= i < ms.len() ==> placed(#[trigger] ms[i], entries)
            &&& forall|i: int|
                0 <= i < layout.targets.len() ==> manifest::manifest_of(
                    (#[trigger] layout.targets[i]).0,
                    ms,
                    sides,
                    entries,
                    layout,
                ) is Ok
            &&& forall|i: int|
                0 <= i < layout.module_lists.len() ==> manifest::list_of(
                    (#[trigger] layout.module_lists[i]).0,
                    ms,
                    sides,
                    entries,
                ) is Ok
            &&& manifest::libs_of(root, layout.libs_dir, shelved, entries) is Ok
        },
        pass::leaf_entries(ms, sides, entries, layout) matches Err(f) ==> pass::generation(
            root,
            ms,
            sides,
            entries,
            layout,
            shelved,
        ) == Err::<Seq<FileText>, MapFault>(f),
{
    let leaves = pass::leaf_entries(ms, sides, entries, layout);
    let manifests = pass::manifest_entries(leaves, layout.targets, ms, sides, entries, layout);
    law_leaves_of_placed_modules(ms, sides, entries, layout);
    lemma_manifests_or_fault(leaves, layout.targets, ms, sides, entries, layout);
    lemma_lists_or_fault(manifests, layout.module_lists, ms, sides, entries);
}

#[verifier::spinoff_prover]
#[verifier::rlimit(40)]
proof fn lemma_manifests_or_fault(
    before: Result<Seq<FileText>, MapFault>,
    targets: Seq<(Side, Text)>,
    ms: Seq<ModuleView>,
    sides: Rows<Side>,
    entries: Rows<Seq<Text>>,
    layout: LayoutView,
)
    ensures
        pass::manifest_entries(before, targets, ms, sides, entries, layout) is Ok <==> before is Ok
            && forall|i: int|
            0 <= i < targets.len() ==> manifest::manifest_of(
                (#[trigger] targets[i]).0,
                ms,
                sides,
                entries,
                layout,
            ) is Ok,
        before matches Err(f) ==> pass::manifest_entries(
            before,
            targets,
            ms,
            sides,
            entries,
            layout,
        ) == Err::<Seq<FileText>, MapFault>(f),
    decreases targets.len(),
{
    if targets.len() > 0 {
        let some = targets.drop_last();
        lemma_manifests_or_fault(before, some, ms, sides, entries, layout);
        assert(targets[targets.len() - 1] == targets.last());
        assert forall|i: int| 0 <= i < some.len() implies #[trigger] some[i] == targets[i] by {}
        let made = pass::manifest_entries(before, targets, ms, sides, entries, layout);
        if made is Ok {
            assert forall|i: int| 0 <= i < targets.len() implies manifest::manifest_of(
                (#[trigger] targets[i]).0,
                ms,
                sides,
                entries,
                layout,
            ) is Ok by {
                if i < some.len() {
                    assert(some[i] == targets[i]);
                }
            }
        }
        if before is Ok && forall|i: int|
            0 <= i < targets.len() ==> manifest::manifest_of(
                (#[trigger] targets[i]).0,
                ms,
                sides,
                entries,
                layout,
            ) is Ok {
            assert forall|i: int| 0 <= i < some.len() implies manifest::manifest_of(
                (#[trigger] some[i]).0,
                ms,
                sides,
                entries,
                layout,
            ) is Ok by {
                assert(some[i] == targets[i]);
            }
        }
    }
}

#[verifier::spinoff_prover]
#[verifier::rlimit(40)]
proof fn lemma_lists_or_fault(
    before: Result<Seq<FileText>, MapFault>,
    targets: Seq<(Side, Text)>,
    ms: Seq<ModuleView>,
    sides: Rows<Side>,
    entries: Rows<Seq<Text>>,
)
    ensures
        pass::list_entries(before, targets, ms, sides, entries) is Ok <==> before is Ok
            && forall|i: int|
            0 <= i < targets.len() ==> manifest::list_of(
                (#[trigger] targets[i]).0,
                ms,
                sides,
                entries,
            ) is Ok,
        before matches Err(f) ==> pass::list_entries(before, targets, ms, sides, entries) == Err::<
            Seq<FileText>,
            MapFault,
        >(f),
    decreases targets.len(),
{
    if targets.len() > 0 {
        let some = targets.drop_last();
        lemma_lists_or_fault(before, some, ms, sides, entries);
        assert(targets[targets.len() - 1] == targets.last());
        let made = pass::list_entries(before, targets, ms, sides, entries);
        if made is Ok {
            assert forall|i: int| 0 <= i < targets.len() implies manifest::list_of(
                (#[trigger] targets[i]).0,
                ms,
                sides,
                entries,
            ) is Ok by {
                if i < some.len() {
                    assert(some[i] == targets[i]);
                }
            }
        }
        if before is Ok && forall|i: int|
            0 <= i < targets.len() ==> manifest::list_of(
                (#[trigger] targets[i]).0,
                ms,
                sides,
                entries,
            ) is Ok {
            assert forall|i: int| 0 <= i < some.len() implies manifest::list_of(
                (#[trigger] some[i]).0,
                ms,
                sides,
                entries,
            ) is Ok by {
                assert(some[i] == targets[i]);
            }
        }
    }
}

/// The instances that hold leaves come in the order of the modules, and the
/// folder of one is that of the first module whose leaf it holds.
pub proof fn law_leaf_homes_in_order(
    ms: Seq<ModuleView>,
    m: ModuleView,
    sides: Rows<Side>,
    entries: Rows<Seq<Text>>,
    layout: LayoutView,
)
    ensures
        ({
            let before = pass::leaf_homes(ms, sides, entries, layout);
            let after = pass::leaf_homes(ms.push(m), sides, entries, layout);
            match pass::leaf_home(m, sides, entries, layout) {
                Some(home) => {
                    let known = exists|k: int|
                        0 <= k < before.len() && (#[trigger] before[k]).0 == home.0;
                    &&& known ==> after == before
                    &&& !known ==> after == before.push(home)
                },
                None => after == before,
            }
        }),
{
    let before = pass::leaf_homes(ms, sides, entries, layout);
    assert(ms.push(m).drop_last() =~= ms);
    assert(ms.push(m).last() == m);
    if let Some(home) = pass::leaf_home(m, sides, entries, layout) {
        let keys = table::keys(before);
        if keys.contains(home.0) {
            let k = choose|k: int| 0 <= k < keys.len() && keys[k] == home.0;
            assert(before[k].0 == home.0);
        } else {
            assert forall|k: int| 0 <= k < before.len() implies (#[trigger] before[k]).0
                != home.0 by {
                assert(keys[k] == before[k].0);
            }
        }
    }
}

} // verus!
