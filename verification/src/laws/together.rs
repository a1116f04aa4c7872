//! Laws of modules that go together, and of what is written for all of them.

use vstd::prelude::*;

use crate::emit;
use crate::laws::leaf::{self, ended};
use crate::layout::LayoutView;
use crate::manifest::{self, ManifestFault, Shelved};
use crate::module::ModuleView;
use crate::paths::{self, PartView};
use crate::rojo::{self, MapFault, Side};
use crate::table::{self, Rows};
use crate::text::{self, Text};

verus! {

/// No two modules have the same id.
pub open spec fn ids_differ(ms: Seq<ModuleView>) -> bool {
    forall|i: int, j: int|
        #![trigger ms[i], ms[j]]
        0 <= i < j < ms.len() ==> ms[i].id != ms[j].id
}

/// Every module has a place in the game.
pub open spec fn all_placed(ms: Seq<ModuleView>, entries: Rows<Seq<Text>>) -> bool {
    forall|i: int| 0 <= i < ms.len() ==> rojo::path_of(entries, (#[trigger] ms[i]).file) is Ok
}

/// The side of a module: that of the service that its path begins with.
pub open spec fn side_of(m: ModuleView, entries: Rows<Seq<Text>>) -> Side {
    rojo::side_of_root(text::head_of(rojo::path_of(entries, m.file)->Ok_0, '.'))
}

/// The leaf of a module: its id, in the folder of its side.
pub open spec fn leaf_of(m: ModuleView, entries: Rows<Seq<Text>>) -> Text {
    paths::path_join(
        "ModuxTypes/"@ + (match side_of(m, entries) {
            Side::Client => "client"@,
            Side::Server => "server"@,
            Side::Shared => "shared"@,
        }),
        m.id + ".luau"@,
    )
}

/// No two modules have the same leaf.
pub open spec fn leaves_differ(ms: Seq<ModuleView>, entries: Rows<Seq<Text>>) -> bool {
    forall|i: int, j: int|
        #![trigger ms[i], ms[j]]
        0 <= i < j < ms.len() ==> paths::parts(leaf_of(ms[i], entries)) != paths::parts(
            leaf_of(ms[j], entries),
        )
}

/// An id is that of a module which is shared, or of the same side as the one that
/// requires it.
pub open spec fn can_require(
    m: ModuleView,
    id: Text,
    ms: Seq<ModuleView>,
    entries: Rows<Seq<Text>>,
) -> bool {
    exists|j: int|
        0 <= j < ms.len() && (#[trigger] ms[j]).id == id && (side_of(ms[j], entries) == Side::Shared
            || side_of(ms[j], entries) == side_of(m, entries))
}

/// Whatever a module requires, it can.
pub open spec fn requires_met(ms: Seq<ModuleView>, entries: Rows<Seq<Text>>) -> bool {
    forall|i: int, k: int|
        0 <= i < ms.len() && 0 <= k < ms[i].declared_require.len() ==> can_require(
            ms[i],
            #[trigger] ms[i].declared_require[k],
            ms,
            entries,
        )
}

/// What sides say of modules with different ids that all have a place.
proof fn lemma_sides_say(ms: Seq<ModuleView>, entries: Rows<Seq<Text>>)
    requires
        ids_differ(ms),
        all_placed(ms, entries),
    ensures
        manifest::duplicate_in(ms) is None,
        manifest::sides_of(ms, entries) is Ok,
        forall|i: int|
            0 <= i < ms.len() ==> table::get(
                manifest::sides_of(ms, entries)->Ok_0,
                (#[trigger] ms[i]).id,
            ) == Some(side_of(ms[i], entries)),
        forall|i: int|
            0 <= i < ms.len() ==> manifest::leaf_name(
                manifest::sides_of(ms, entries)->Ok_0,
                (#[trigger] ms[i]).id,
            ) == leaf_of(ms[i], entries),
{
    manifest::lemma_is_no_duplicate(ms);
    assert forall|i: int| 0 <= i < ms.len() implies rojo::side_at(
        entries,
        (#[trigger] ms[i]).file,
    ) is Ok by {
        assert(rojo::path_of(entries, ms[i].file) is Ok);
    }
    manifest::lemma_has_sides(ms, entries);
    assert forall|i: int| 0 <= i < ms.len() implies table::get(
        manifest::sides_of(ms, entries)->Ok_0,
        (#[trigger] ms[i]).id,
    ) == Some(side_of(ms[i], entries)) && manifest::leaf_name(
        manifest::sides_of(ms, entries)->Ok_0,
        ms[i].id,
    ) == leaf_of(ms[i], entries) by {
        manifest::lemma_side(ms, entries, i);
    }
}

/// What there is to say of a require, in terms of modules.
proof fn lemma_dep(
    ms: Seq<ModuleView>,
    entries: Rows<Seq<Text>>,
    i: int,
    dep: Text,
)
    requires
        ids_differ(ms),
        all_placed(ms, entries),
        0 <= i < ms.len(),
    ensures
        ({
            let sides = manifest::sides_of(ms, entries)->Ok_0;
            manifest::dep_fault(ms[i], dep, ms, sides) is None <==> can_require(
                ms[i],
                dep,
                ms,
                entries,
            )
        }),
{
    lemma_sides_say(ms, entries);
    let sides = manifest::sides_of(ms, entries)->Ok_0;
    manifest::lemma_with_id(ms, dep);
    if let Some(target) = manifest::with_id(ms, dep) {
        let j = choose|j: int| 0 <= j < ms.len() && ms[j] == target;
        assert(ms[j].id == dep);
        assert(table::get(sides, ms[j].id) == Some(side_of(ms[j], entries)));
        assert(table::get(sides, ms[i].id) == Some(side_of(ms[i], entries)));
        if can_require(ms[i], dep, ms, entries) {
            let k = choose|k: int|
                0 <= k < ms.len() && (#[trigger] ms[k]).id == dep && (side_of(ms[k], entries)
                    == Side::Shared || side_of(ms[k], entries) == side_of(ms[i], entries));
            if k < j {
                assert(ms[k].id != ms[j].id);
            }
            if j < k {
                assert(ms[j].id != ms[k].id);
            }
        }
    }
}

/// Modules are accepted just where their ids differ, each has a place in the game, no
/// two have the same leaf, and each id that is required is that of a module which is
/// shared or of the same side as the one that requires it. Nothing else is asked.
pub proof fn law_modules_are_accepted(ms: Seq<ModuleView>, entries: Rows<Seq<Text>>)
    ensures
        manifest::validated(ms, entries) is Ok <==> ids_differ(ms) && all_placed(ms, entries)
            && leaves_differ(ms, entries) && requires_met(ms, entries),
{
    if ids_differ(ms) && all_placed(ms, entries) && leaves_differ(ms, entries) && requires_met(
        ms,
        entries,
    ) {
        lemma_sides_say(ms, entries);
        let sides = manifest::sides_of(ms, entries)->Ok_0;
        assert forall|i: int, j: int|
            #![trigger ms[i], ms[j]]
            0 <= i < j < ms.len() implies paths::parts(manifest::leaf_name(sides, ms[i].id))
            != paths::parts(manifest::leaf_name(sides, ms[j].id)) by {
            assert(paths::parts(leaf_of(ms[i], entries)) != paths::parts(leaf_of(ms[j], entries)));
        }
        manifest::lemma_is_no_same_leaf(ms, sides);
        assert forall|i: int| 0 <= i < ms.len() implies manifest::deps_fault(
            #[trigger] ms[i],
            ms[i].declared_require,
            ms,
            sides,
        ) is None by {
            let deps = ms[i].declared_require;
            assert forall|k: int| 0 <= k < deps.len() implies manifest::dep_fault(
                ms[i],
                #[trigger] deps[k],
                ms,
                sides,
            ) is None by {
                assert(can_require(ms[i], ms[i].declared_require[k], ms, entries));
                lemma_dep(ms, entries, i, deps[k]);
            }
            manifest::lemma_is_deps_fine(ms[i], deps, ms, sides);
        }
        manifest::lemma_is_requires_fine(ms, ms.len() as int, sides);
    }
    if manifest::validated(ms, entries) is Ok {
        manifest::lemma_no_duplicate(ms);
        let sides = manifest::validated(ms, entries)->Ok_0;
        assert forall|i: int| 0 <= i < ms.len() implies rojo::path_of(
            entries,
            (#[trigger] ms[i]).file,
        ) is Ok by {
            manifest::lemma_side(ms, entries, i);
        }
        lemma_sides_say(ms, entries);
        assert forall|i: int, j: int|
            #![trigger ms[i], ms[j]]
            0 <= i < j < ms.len() implies paths::parts(leaf_of(ms[i], entries)) != paths::parts(
            leaf_of(ms[j], entries),
        ) by {
            manifest::lemma_no_same_leaf(ms, sides, i, j);
        }
        assert forall|i: int, k: int|
            0 <= i < ms.len() && 0 <= k < ms[i].declared_require.len() implies can_require(
            ms[i],
            #[trigger] ms[i].declared_require[k],
            ms,
            entries,
        ) by {
            manifest::lemma_requires_fine(ms, ms.len() as int, sides, i);
            manifest::lemma_deps_fine(ms[i], ms[i].declared_require, ms, sides, k);
            lemma_dep(ms, entries, i, ms[i].declared_require[k]);
        }
    }
}

/// Modules that are accepted get their sides: each the one that its path begins with,
/// and nothing else has one.
pub proof fn law_modules_get_their_sides(ms: Seq<ModuleView>, entries: Rows<Seq<Text>>, id: Text)
    requires
        manifest::validated(ms, entries) is Ok,
    ensures
        forall|i: int|
            0 <= i < ms.len() ==> table::get(
                manifest::validated(ms, entries)->Ok_0,
                (#[trigger] ms[i]).id,
            ) == Some(side_of(ms[i], entries)),
        (forall|i: int| 0 <= i < ms.len() ==> (#[trigger] ms[i]).id != id) ==> table::get(
            manifest::validated(ms, entries)->Ok_0,
            id,
        ) is None,
{
    law_modules_are_accepted(ms, entries);
    lemma_sides_say(ms, entries);
    if forall|i: int| 0 <= i < ms.len() ==> (#[trigger] ms[i]).id != id {
        manifest::lemma_no_side(ms, entries, id);
    }
}

/// Two modules with the same id are refused, by the id and the two files, of the first
/// two that have it.
pub proof fn law_duplicate_is_refused(
    ms: Seq<ModuleView>,
    entries: Rows<Seq<Text>>,
    i: int,
    j: int,
)
    requires
        0 <= i < j < ms.len(),
        ms[i].id == ms[j].id,
        ids_differ(ms.take(j)),
    ensures
        manifest::validated(ms, entries) == Err::<Rows<Side>, ManifestFault>(
            ManifestFault::Duplicate { id: ms[j].id, first: ms[i].file, second: ms[j].file },
        ),
{
    let some = ms.take(j);
    let more = ms.take(j + 1);
    manifest::lemma_is_no_duplicate(some);
    assert(more.drop_last() =~= some);
    manifest::lemma_with_id(some, ms[j].id);
    assert(some[i].id == ms[j].id);
    let m = manifest::with_id(some, ms[j].id)->0;
    let k = choose|k: int| 0 <= k < some.len() && some[k] == m;
    if k < i {
        assert(some[k].id != some[i].id);
    }
    if i < k {
        assert(some[i].id != some[k].id);
    }
    manifest::lemma_duplicate_stays(ms, j + 1);
}

/// A module without a place is refused as the map refuses it.
pub proof fn law_module_without_a_place_is_refused(
    ms: Seq<ModuleView>,
    entries: Rows<Seq<Text>>,
    j: int,
)
    requires
        ids_differ(ms),
        0 <= j < ms.len(),
        all_placed(ms.take(j), entries),
        rojo::path_of(entries, ms[j].file) is Err,
    ensures
        manifest::validated(ms, entries) == Err::<Rows<Side>, ManifestFault>(
            ManifestFault::Place(rojo::path_of(entries, ms[j].file)->Err_0),
        ),
{
    manifest::lemma_is_no_duplicate(ms);
    let some = ms.take(j);
    let more = ms.take(j + 1);
    assert(more.drop_last() =~= some);
    assert forall|i: int| 0 <= i < some.len() implies rojo::side_at(
        entries,
        (#[trigger] some[i]).file,
    ) is Ok by {
        assert(rojo::path_of(entries, some[i].file) is Ok);
    }
    manifest::lemma_has_sides(some, entries);
    manifest::lemma_sides_stay(ms, entries, j + 1);
}

/// Two modules with the same leaf are refused, by the two files and the leaf, of the
/// first two that have it.
pub proof fn law_same_leaf_is_refused(
    ms: Seq<ModuleView>,
    entries: Rows<Seq<Text>>,
    i: int,
    j: int,
)
    requires
        ids_differ(ms),
        all_placed(ms, entries),
        0 <= i < j < ms.len(),
        paths::parts(leaf_of(ms[i], entries)) == paths::parts(leaf_of(ms[j], entries)),
        leaves_differ(ms.take(j), entries),
    ensures
        manifest::validated(ms, entries) == Err::<Rows<Side>, ManifestFault>(
            ManifestFault::SameLeaf {
                first: ms[i].file,
                second: ms[j].file,
                leaf: leaf_of(ms[j], entries),
            },
        ),
{
    lemma_sides_say(ms, entries);
    let sides = manifest::sides_of(ms, entries)->Ok_0;
    let some = ms.take(j);
    let more = ms.take(j + 1);
    assert(more.drop_last() =~= some);
    assert forall|a: int, b: int|
        #![trigger some[a], some[b]]
        0 <= a < b < some.len() implies paths::parts(manifest::leaf_name(sides, some[a].id))
        != paths::parts(manifest::leaf_name(sides, some[b].id)) by {
        assert(some[a] == ms[a] && some[b] == ms[b]);
    }
    manifest::lemma_is_no_same_leaf(some, sides);
    let place = paths::parts(leaf_of(ms[j], entries));
    assert(manifest::leaf_name(sides, ms[i].id) == leaf_of(ms[i], entries));
    assert(manifest::leaf_name(sides, ms[j].id) == leaf_of(ms[j], entries));
    lemma_leaf_found(some, sides, place, i);
    manifest::lemma_same_leaf_stays(ms, sides, j + 1);
}

proof fn lemma_leaf_found(ms: Seq<ModuleView>, sides: Rows<Side>, place: Seq<PartView>, i: int)
    requires
        0 <= i < ms.len(),
        paths::parts(manifest::leaf_name(sides, ms[i].id)) == place,
        forall|a: int, b: int|
            #![trigger ms[a], ms[b]]
            0 <= a < b < ms.len() ==> paths::parts(manifest::leaf_name(sides, ms[a].id))
                != paths::parts(manifest::leaf_name(sides, ms[b].id)),
    ensures
        manifest::with_leaf(ms, sides, place) == Some(ms[i]),
    decreases ms.len(),
{
    let rest = ms.drop_last();
    if i < rest.len() {
        assert forall|a: int, b: int|
            #![trigger rest[a], rest[b]]
            0 <= a < b < rest.len() implies paths::parts(manifest::leaf_name(sides, rest[a].id))
            != paths::parts(manifest::leaf_name(sides, rest[b].id)) by {
            assert(rest[a] == ms[a] && rest[b] == ms[b]);
        }
        lemma_leaf_found(rest, sides, place, i);
    } else {
        assert forall|a: int| 0 <= a < rest.len() implies paths::parts(
            manifest::leaf_name(sides, (#[trigger] rest[a]).id),
        ) != place by {
            assert(rest[a] == ms[a] && ms[i] == ms.last());
        }
        manifest::lemma_no_leaf_at(rest, sides, place);
    }
}

/// A require that cannot be met is refused: where there is no such module, with the
/// ids that there are; where there is one that the side cannot see, with both sides and
/// where it is. The first of them is reported, by module and then by require.
#[verifier::spinoff_prover]
#[verifier::rlimit(40)]
pub proof fn law_unmet_require_is_refused(
    ms: Seq<ModuleView>,
    entries: Rows<Seq<Text>>,
    i: int,
    k: int,
)
    requires
        ids_differ(ms),
        all_placed(ms, entries),
        leaves_differ(ms, entries),
        0 <= i < ms.len(),
        0 <= k < ms[i].declared_require.len(),
        forall|a: int, b: int|
            0 <= a < i && 0 <= b < ms[a].declared_require.len() ==> can_require(
                ms[a],
                #[trigger] ms[a].declared_require[b],
                ms,
                entries,
            ),
        forall|b: int|
            0 <= b < k ==> can_require(ms[i], #[trigger] ms[i].declared_require[b], ms, entries),
        !can_require(ms[i], ms[i].declared_require[k], ms, entries),
    ensures
        ({
            let dep = ms[i].declared_require[k];
            let refusal = manifest::validated(ms, entries);
            &&& (forall|j: int| 0 <= j < ms.len() ==> (#[trigger] ms[j]).id != dep) ==> refusal
                == Err::<Rows<Side>, ManifestFault>(
                ManifestFault::Missing {
                    file: ms[i].file,
                    dep,
                    available: table::distinct(Seq::new(ms.len(), |j: int| ms[j].id)),
                },
            )
            &&& forall|j: int|
                0 <= j < ms.len() && (#[trigger] ms[j]).id == dep ==> refusal == Err::<
                    Rows<Side>,
                    ManifestFault,
                >(
                    ManifestFault::Unseen {
                        file: ms[i].file,
                        mine: side_of(ms[i], entries),
                        dep,
                        theirs: side_of(ms[j], entries),
                        target: ms[j].file,
                    },
                )
        }),
{
    lemma_sides_say(ms, entries);
    let sides = manifest::sides_of(ms, entries)->Ok_0;
    let dep = ms[i].declared_require[k];
    let deps = ms[i].declared_require;
    assert forall|a: int, b: int|
        #![trigger ms[a], ms[b]]
        0 <= a < b < ms.len() implies paths::parts(manifest::leaf_name(sides, ms[a].id))
        != paths::parts(manifest::leaf_name(sides, ms[b].id)) by {
        assert(paths::parts(leaf_of(ms[a], entries)) != paths::parts(leaf_of(ms[b], entries)));
    }
    manifest::lemma_is_no_same_leaf(ms, sides);
    lemma_before_fine(ms, entries, sides, i);
    let some = deps.take(k);
    assert forall|b: int| 0 <= b < some.len() implies manifest::dep_fault(
        ms[i],
        #[trigger] some[b],
        ms,
        sides,
    ) is None by {
        assert(can_require(ms[i], ms[i].declared_require[b], ms, entries));
        lemma_dep(ms, entries, i, deps[b]);
    }
    manifest::lemma_is_deps_fine(ms[i], some, ms, sides);
    assert(deps.take(k + 1).drop_last() =~= some);
    lemma_dep(ms, entries, i, dep);
    manifest::lemma_deps_stay(ms[i], deps, ms, sides, k + 1);
    manifest::lemma_requires_stay(ms, i + 1, ms.len() as int, sides);
    manifest::lemma_with_id(ms, dep);
    assert(manifest::ids_of(ms) =~= Seq::new(ms.len(), |j: int| ms[j].id));
    assert(table::get(sides, ms[i].id) == Some(side_of(ms[i], entries)));
    assert forall|j: int| 0 <= j < ms.len() && (#[trigger] ms[j]).id == dep implies
        manifest::with_id(ms, dep) == Some(ms[j]) && table::get(sides, dep) == Some(
        side_of(ms[j], entries),
    ) by {
        let m = manifest::with_id(ms, dep)->0;
        let x = choose|x: int| 0 <= x < ms.len() && ms[x] == m;
        if x < j {
            assert(ms[x].id != ms[j].id);
        }
        if j < x {
            assert(ms[j].id != ms[x].id);
        }
    }
}

proof fn lemma_before_fine(
    ms: Seq<ModuleView>,
    entries: Rows<Seq<Text>>,
    sides: Rows<Side>,
    n: int,
)
    requires
        ids_differ(ms),
        all_placed(ms, entries),
        manifest::sides_of(ms, entries) == Ok::<Rows<Side>, MapFault>(sides),
        0 <= n <= ms.len(),
        forall|a: int, b: int|
            0 <= a < n && 0 <= b < ms[a].declared_require.len() ==> can_require(
                ms[a],
                #[trigger] ms[a].declared_require[b],
                ms,
                entries,
            ),
    ensures
        manifest::requires_fault(ms, n, sides) is None,
    decreases n,
{
    if n > 0 {
        lemma_before_fine(ms, entries, sides, n - 1);
        let deps = ms[n - 1].declared_require;
        assert forall|b: int| 0 <= b < deps.len() implies manifest::dep_fault(
            ms[n - 1],
            #[trigger] deps[b],
            ms,
            sides,
        ) is None by {
            assert(can_require(ms[n - 1], ms[n - 1].declared_require[b], ms, entries));
            lemma_dep(ms, entries, n - 1, deps[b]);
        }
        manifest::lemma_is_deps_fine(ms[n - 1], deps, ms, sides);
    }
}

/// A refusal names what it is about: the id and the files, the leaf, the require and
/// what there is instead, or the two sides and where the module is.
pub proof fn law_refusals_in_words(
    id: Text,
    first: Text,
    second: Text,
    available: Seq<Text>,
    mine: Side,
    theirs: Side,
)
    ensures
        manifest::fault_message(ManifestFault::Duplicate { id, first, second })
            == "duplicate ID "@ + manifest::quoted(id) + " in "@ + first + " and "@ + second,
        manifest::fault_message(ManifestFault::SameLeaf { first, second, leaf: id }) == first
            + " and "@ + second + " would both write "@ + id
            + ".\n  A type leaf is named after the ID of its module: give one of them another ID."@,
        manifest::fault_message(ManifestFault::Missing { file: first, dep: id, available })
            == "[Manifest] "@ + first + " requires "@ + manifest::quoted(id)
            + ", which does not exist. Available: "@ + text::joined(available, ", "@),
        manifest::fault_message(
            ManifestFault::Unseen { file: first, mine, dep: id, theirs, target: second },
        ) == "[Manifest] "@ + first + " is "@ + side_text(mine) + " and requires "@
            + manifest::quoted(id) + ", which is "@ + side_text(theirs) + ".\n  "@ + side_text(mine)
            + " cannot see "@ + side_text(theirs)
            + " — move one of them, or go through the network.\n  ("@ + id + " is in "@ + second
            + ")"@,
{
}

/// A side in a word.
pub open spec fn side_text(side: Side) -> Text {
    match side {
        Side::Client => "client"@,
        Side::Server => "server"@,
        Side::Shared => "shared"@,
    }
}

/// A side sees itself and what is shared.
pub proof fn law_who_sees_whom(a: Side, b: Side)
    ensures
        a.reaches(b) <==> b == Side::Shared || a == b,
        rojo::side_name(a) == side_text(a),
{
}

proof fn lemma_of_kind(ms: Seq<ModuleView>, kind: Text)
    ensures
        manifest::of_kind(ms, kind) == ms.filter(|m: ModuleView| m.kind == kind),
    decreases ms.len(),
{
    reveal(Seq::filter);
    if ms.len() > 0 {
        lemma_of_kind(ms.drop_last(), kind);
    } else {
        assert(manifest::of_kind(ms, kind) =~= ms.filter(|m: ModuleView| m.kind == kind));
    }
}

/// What a side sees of some modules, in order: its own and those that are shared.
pub proof fn law_side_sees(side: Side, ms: Seq<ModuleView>, sides: Rows<Side>)
    ensures
        manifest::visible(side, ms, sides) == ms.filter(
            |m: ModuleView|
                table::get(sides, m.id)->0 == Side::Shared || table::get(sides, m.id)->0 == side,
        ),
    decreases ms.len(),
{
    reveal(Seq::filter);
    let keep = |m: ModuleView|
        table::get(sides, m.id)->0 == Side::Shared || table::get(sides, m.id)->0 == side;
    if ms.len() > 0 {
        law_side_sees(side, ms.drop_last(), sides);
    } else {
        assert(manifest::visible(side, ms, sides) =~= ms.filter(keep));
    }
}

/// The lines `\tId: Id.Public,` of the modules of a kind, in order.
pub open spec fn entries_of(ms: Seq<ModuleView>, kind: Text) -> Seq<Text> {
    ms.filter(|m: ModuleView| m.kind == kind).map_values(
        |m: ModuleView| "\t"@ + m.id + ": "@ + (m.id + ".Public"@) + ","@,
    )
}

/// An exported type with these lines in it.
pub open spec fn type_with(name: Text, lines: Seq<Text>) -> Text {
    if lines.len() == 0 {
        "export type "@ + name + " = {}\n"@
    } else {
        "export type "@ + name + " = {"@ + "\n"@ + ended(lines) + "}"@ + "\n"@
    }
}

proof fn lemma_type_with(open: Text, lines: Seq<Text>, close: Text)
    ensures
        emit::block(seq![open] + lines + seq![close]) == open + "\n"@ + ended(lines) + close
            + "\n"@,
{
    leaf::lemma_block(seq![open] + lines + seq![close]);
    leaf::lemma_ended_cat(seq![open] + lines, seq![close]);
    leaf::lemma_ended_cat(seq![open], lines);
    leaf::lemma_ended_one(open);
    leaf::lemma_ended_one(close);
    assert((open + "\n"@) + ended(lines) + (close + "\n"@) =~= open + "\n"@ + ended(lines) + close
        + "\n"@);
}

proof fn lemma_bucket(ms: Seq<ModuleView>, kind: Text, alias: Text)
    ensures
        manifest::bucket_text(ms, kind, alias) == type_with(alias, entries_of(ms, kind)),
{
    lemma_of_kind(ms, kind);
    let some = manifest::of_kind(ms, kind);
    let lines = entries_of(ms, kind);
    assert(some.map_values(|m: ModuleView| manifest::entry_line(m)) =~= lines);
    lemma_type_with("export type "@ + alias + " = {"@, lines, "}"@);
}

/// What can be done with each component: get it, create it, all of them, destroy it.
pub open spec fn access_of(id: Text) -> Seq<Text> {
    seq![
        "\t"@ + id + ": {"@,
        "\t\tGet: (self: any, instance: Instance) -> "@ + (id + ".Public"@) + "?,"@,
        "\t\tCreate: (self: any, instance: Instance) -> "@ + (id + ".Public"@) + ","@,
        "\t\tAll: (self: any) -> { "@ + (id + ".Public"@) + " },"@,
        "\t\tDestroy: (self: any, instance: Instance) -> (),"@,
        "\t},"@,
    ]
}

/// The same of several, in order.
pub open spec fn accesses_of(ids: Seq<Text>) -> Seq<Text>
    decreases ids.len(),
{
    if ids.len() == 0 {
        Seq::empty()
    } else {
        accesses_of(ids.drop_last()) + access_of(ids.last())
    }
}

proof fn lemma_accesses(ms: Seq<ModuleView>)
    ensures
        manifest::accesses(ms) == accesses_of(ms.map_values(|m: ModuleView| m.id)),
        ms.len() > 0 ==> manifest::accesses(ms).len() > 0,
    decreases ms.len(),
{
    let ids = ms.map_values(|m: ModuleView| m.id);
    if ms.len() > 0 {
        lemma_accesses(ms.drop_last());
        assert(ids.drop_last() =~= ms.drop_last().map_values(|m: ModuleView| m.id));
        assert(manifest::access_lines(ms.last()) =~= access_of(ids.last()));
    }
}

proof fn lemma_access_text(ms: Seq<ModuleView>)
    ensures
        manifest::access_text(ms) == type_with(
            "ComponentAccess"@,
            accesses_of(
                ms.filter(|m: ModuleView| m.kind == "Component"@).map_values(
                    |m: ModuleView| m.id,
                ),
            ),
        ),
{
    reveal_strlit("export type ComponentAccess = {}\n");
    reveal_strlit("export type ComponentAccess = {");
    reveal_strlit("export type ");
    reveal_strlit("ComponentAccess");
    reveal_strlit(" = {}\n");
    reveal_strlit(" = {");
    lemma_of_kind(ms, "Component"@);
    let some = manifest::of_kind(ms, "Component"@);
    lemma_accesses(some);
    assert("export type "@ + "ComponentAccess"@ + " = {}\n"@
        =~= "export type ComponentAccess = {}\n"@);
    assert("export type "@ + "ComponentAccess"@ + " = {"@ =~= "export type ComponentAccess = {"@);
    lemma_type_with("export type ComponentAccess = {"@, manifest::accesses(some), "}"@);
    if some.len() == 0 {
        assert(manifest::accesses(some) =~= Seq::empty());
    }
}

/// What brings in modules: a service for each name that their paths begin with, and a
/// require for each of them, in order.
pub open spec fn brought_in(names: Seq<Text>, places: Seq<Text>) -> Seq<Text> {
    manifest::roots_of(places).map_values(
        |r: Text| "local "@ + r + " = game:GetService(\""@ + r + "\")"@,
    ) + Seq::new(
        names.len(),
        |i: int| "local "@ + names[i] + " = require("@ + places[i] + ")"@,
    )
}

proof fn lemma_brought_in(names: Seq<Text>, places: Seq<Text>)
    ensures
        manifest::requires_lines(names, places) == brought_in(names, places),
{
    assert(manifest::requires_lines(names, places) =~= brought_in(names, places));
}

/// The names that paths begin with are declared each once, in order, and no others
/// are.
pub proof fn law_first_names_are_declared(places: Seq<Text>, root: Text)
    ensures
        table::in_order(manifest::roots_of(places)),
        manifest::roots_of(places).contains(root) <==> root.len() > 0 && exists|i: int|
            0 <= i < places.len() && text::head_of(#[trigger] places[i], '.') == root,
    decreases places.len(),
{
    manifest::lemma_roots(places);
    if places.len() > 0 {
        let some = places.drop_last();
        law_first_names_are_declared(some, root);
        let last = text::head_of(places.last(), '.');
        assert(places[places.len() - 1] == places.last());
        if last.len() > 0 {
            table::law_with_text(manifest::roots_of(some), last);
        }
        if exists|i: int| 0 <= i < some.len() && text::head_of(#[trigger] some[i], '.') == root {
            let i = choose|i: int|
                0 <= i < some.len() && text::head_of(#[trigger] some[i], '.') == root;
            assert(places[i] == some[i]);
        }
        if exists|i: int| 0 <= i < places.len() && text::head_of(#[trigger] places[i], '.') == root {
            let i = choose|i: int|
                0 <= i < places.len() && text::head_of(#[trigger] places[i], '.') == root;
            if i < some.len() {
                assert(some[i] == places[i]);
            }
        }
    }
}

/// The Manifest of the client: what it sees brought in by id from where the leaves are,
/// then under AllControllers the line `\tId: Id.Public,` of every controller that it
/// sees, under AllComponents that of every component, each in order, and what can be
/// done with the components.
pub proof fn law_manifest_of_the_client(ms: Seq<ModuleView>, places: Seq<Text>)
    ensures
        manifest::manifest_text(Side::Client, ms, places) == "--!strict\n"@ + "\n"@ + emit::block(
            brought_in(ms.map_values(|m: ModuleView| m.id), places),
        ) + "\n"@ + type_with("AllControllers"@, entries_of(ms, "Controller"@)) + "\n"@ + type_with(
            "AllComponents"@,
            entries_of(ms, "Component"@),
        ) + "\n"@ + type_with(
            "ComponentAccess"@,
            accesses_of(
                ms.filter(|m: ModuleView| m.kind == "Component"@).map_values(
                    |m: ModuleView| m.id,
                ),
            ),
        ) + "\n"@ + "return {}\n"@,
{
    lemma_manifest(
        Side::Client,
        ms,
        places,
        "Controller"@,
        "AllControllers"@,
    );
}

/// The Manifest of the server: as that of the client, with the services that it sees
/// under AllServices.
pub proof fn law_manifest_of_the_server(ms: Seq<ModuleView>, places: Seq<Text>)
    ensures
        manifest::manifest_text(Side::Server, ms, places) == "--!strict\n"@ + "\n"@ + emit::block(
            brought_in(ms.map_values(|m: ModuleView| m.id), places),
        ) + "\n"@ + type_with("AllServices"@, entries_of(ms, "Service"@)) + "\n"@ + type_with(
            "AllComponents"@,
            entries_of(ms, "Component"@),
        ) + "\n"@ + type_with(
            "ComponentAccess"@,
            accesses_of(
                ms.filter(|m: ModuleView| m.kind == "Component"@).map_values(
                    |m: ModuleView| m.id,
                ),
            ),
        ) + "\n"@ + "return {}\n"@,
{
    lemma_manifest(Side::Server, ms, places, "Service"@, "AllServices"@);
}

proof fn lemma_manifest(
    side: Side,
    ms: Seq<ModuleView>,
    places: Seq<Text>,
    kind: Text,
    alias: Text,
)
    requires
        manifest::buckets_of(side) == seq![(kind, alias), ("Component"@, "AllComponents"@)],
    ensures
        manifest::manifest_text(side, ms, places) == "--!strict\n"@ + "\n"@ + emit::block(
            brought_in(ms.map_values(|m: ModuleView| m.id), places),
        ) + "\n"@ + type_with(alias, entries_of(ms, kind)) + "\n"@ + type_with(
            "AllComponents"@,
            entries_of(ms, "Component"@),
        ) + "\n"@ + type_with(
            "ComponentAccess"@,
            accesses_of(
                ms.filter(|m: ModuleView| m.kind == "Component"@).map_values(
                    |m: ModuleView| m.id,
                ),
            ),
        ) + "\n"@ + "return {}\n"@,
{
    let ids = ms.map_values(|m: ModuleView| m.id);
    assert(manifest::ids_of(ms) == ids);
    lemma_brought_in(ids, places);
    lemma_bucket(ms, kind, alias);
    lemma_bucket(ms, "Component"@, "AllComponents"@);
    lemma_access_text(ms);
    let a = "--!strict\n"@;
    let b = emit::block(brought_in(ids, places));
    let c = type_with(alias, entries_of(ms, kind));
    let d = type_with("AllComponents"@, entries_of(ms, "Component"@));
    let e = manifest::access_text(ms);
    let f = "return {}\n"@;
    let blocks = seq![a, b] + manifest::bucket_texts(ms, side) + seq![e, f];
    assert(blocks =~= seq![a, b, c, d, e, f]);
    lemma_joined_six(a, b, c, d, e, f, "\n"@);
}

proof fn lemma_joined_six(a: Text, b: Text, c: Text, d: Text, e: Text, f: Text, n: Text)
    ensures
        text::joined(seq![a, b, c, d, e, f], n) == a + n + b + n + c + n + d + n + e + n + f,
{
    assert(seq![a, b, c, d, e, f].drop_last() =~= seq![a, b, c, d, e]);
    assert(seq![a, b, c, d, e].drop_last() =~= seq![a, b, c, d]);
    assert(seq![a, b, c, d].drop_last() =~= seq![a, b, c]);
    assert(seq![a, b, c].drop_last() =~= seq![a, b]);
    assert(seq![a, b].drop_last() =~= seq![a]);
    reveal_with_fuel(text::joined, 6);
}

/// A Manifest is about what its side sees, by where the leaves are; where a leaf has
/// no place there is none.
pub proof fn law_manifest_is_about_what_is_seen(
    side: Side,
    ms: Seq<ModuleView>,
    sides: Rows<Side>,
    entries: Rows<Seq<Text>>,
    layout: LayoutView,
)
    ensures
        ({
            let seen = ms.filter(
                |m: ModuleView|
                    table::get(sides, m.id)->0 == Side::Shared || table::get(sides, m.id)->0
                        == side,
            );
            match manifest::leaf_places(seen, sides, entries, layout) {
                Ok(places) => manifest::manifest_of(side, ms, sides, entries, layout) == Ok::<
                    Text,
                    MapFault,
                >(manifest::manifest_text(side, seen, places)),
                Err(f) => manifest::manifest_of(side, ms, sides, entries, layout) == Err::<
                    Text,
                    MapFault,
                >(f),
            }
        }),
        ({
            let seen = ms.filter(
                |m: ModuleView|
                    table::get(sides, m.id)->0 == Side::Shared || table::get(sides, m.id)->0
                        == side,
            );
            match manifest::module_places(seen, entries) {
                Ok(places) => manifest::list_of(side, ms, sides, entries) == Ok::<Text, MapFault>(
                    manifest::list_text(places),
                ),
                Err(f) => manifest::list_of(side, ms, sides, entries) == Err::<Text, MapFault>(f),
            }
        }),
{
    law_side_sees(side, ms, sides);
}

/// The paths of the leaves of modules, in order, are those of the files that hold them;
/// the first that has none is the fault. The same holds of the modules themselves.
pub proof fn law_places_one_by_one(
    ms: Seq<ModuleView>,
    m: ModuleView,
    sides: Rows<Side>,
    entries: Rows<Seq<Text>>,
    layout: LayoutView,
)
    ensures
        manifest::leaf_places(Seq::empty(), sides, entries, layout) == Ok::<Seq<Text>, MapFault>(
            Seq::empty(),
        ),
        manifest::leaf_places(ms.push(m), sides, entries, layout) == (match (
            manifest::leaf_places(ms, sides, entries, layout),
            rojo::path_of(entries, emit::leaf_of(layout, table::get(sides, m.id)->0, m.id)->0),
        ) {
            (Err(f), _) => Err(f),
            (Ok(_), Err(f)) => Err(f),
            (Ok(some), Ok(p)) => Ok(some + seq![p]),
        }),
        manifest::module_places(Seq::empty(), entries) == Ok::<Seq<Text>, MapFault>(Seq::empty()),
        manifest::module_places(ms.push(m), entries) == (match (
            manifest::module_places(ms, entries),
            rojo::path_of(entries, m.file),
        ) {
            (Err(f), _) => Err(f),
            (Ok(_), Err(f)) => Err(f),
            (Ok(some), Ok(p)) => Ok(some + seq![p]),
        }),
{
    assert(ms.push(m).drop_last() =~= ms);
    if let Ok(some) = manifest::leaf_places(ms, sides, entries, layout) {
        if let Ok(p) = rojo::path_of(
            entries,
            emit::leaf_of(layout, table::get(sides, m.id)->0, m.id)->0,
        ) {
            assert(some.push(p) =~= some + seq![p]);
        }
    }
    if let Ok(some) = manifest::module_places(ms, entries) {
        if let Ok(p) = rojo::path_of(entries, m.file) {
            assert(some.push(p) =~= some + seq![p]);
        }
    }
}

proof fn lemma_lines_text(lines: Seq<Text>)
    ensures
        manifest::lines_text(lines) == ended(lines),
    decreases lines.len(),
{
    if lines.len() > 0 {
        lemma_lines_text(lines.drop_last());
    }
}

/// The list of modules: a service for each name that a path begins with, and a table
/// with the paths, in order.
pub proof fn law_module_list_is_made_of(places: Seq<Text>)
    ensures
        manifest::list_text(places) == "--!strict\n\n"@ + ended(
            manifest::roots_of(places).map_values(
                |r: Text| "local "@ + r + " = game:GetService(\""@ + r + "\")"@,
            ),
        ) + "\nreturn {\n"@ + ended(Seq::new(places.len(), |i: int| "\t"@ + places[i] + ","@))
            + "} :: { ModuleScript }\n"@,
{
    let a = manifest::roots_of(places).map_values(
        |r: Text| "local "@ + r + " = game:GetService(\""@ + r + "\")"@,
    );
    let b = Seq::new(places.len(), |i: int| "\t"@ + places[i] + ","@);
    assert(manifest::roots_of(places).map_values(|r: Text| emit::service_line(r, r)) =~= a);
    assert(places.map_values(|p: Text| "\t"@ + p + ","@) =~= b);
    lemma_lines_text(a);
    lemma_lines_text(b);
}

/// A file `x.luau` in the folder of the libraries is the library `x`, a folder with an
/// `init.luau` is the library of its name, and nothing else is a library.
pub proof fn law_what_is_a_library(name: Text, stem: Text)
    ensures
        stem.len() > 0 ==> manifest::library(stem + ".luau"@, Shelved::File) == Some(
            (stem, stem + ".luau"@),
        ),
        manifest::library(".luau"@, Shelved::File) is None,
        !(".luau"@.is_suffix_of(name)) ==> manifest::library(name, Shelved::File) is None,
        manifest::library(name, Shelved::Folder) is None,
        manifest::library(name, Shelved::Package) == Some(
            (name, paths::path_join(name, "init.luau"@)),
        ),
{
    let full = stem + ".luau"@;
    assert(full.subrange(full.len() - ".luau"@.len(), full.len() as int) =~= ".luau"@);
    assert(full.take(full.len() - ".luau"@.len()) =~= stem);
}

/// The libraries come in the order of the names under which they stand, each by its own
/// name and with the path in the game of its file; the first without one is the fault.
pub proof fn law_libraries_one_by_one(
    rows: Rows<Shelved>,
    row: (Text, Shelved),
    root: Text,
    dir: Text,
    entries: Rows<Seq<Text>>,
)
    ensures
        manifest::library_places(Seq::empty(), root, dir, entries) == Ok::<
            (Seq<Text>, Seq<Text>),
            MapFault,
        >((Seq::empty(), Seq::empty())),
        manifest::library_places(rows.push(row), root, dir, entries) == (match (
            manifest::library_places(rows, root, dir, entries),
            manifest::library(row.0, row.1),
        ) {
            (Err(f), _) => Err(f),
            (Ok(some), None) => Ok(some),
            (Ok((names, places)), Some((name, file))) => match rojo::path_of(
                entries,
                paths::relative(paths::path_join(paths::path_join(root, dir), file), root),
            ) {
                Ok(p) => Ok((names + seq![name], places + seq![p])),
                Err(f) => Err(f),
            },
        }),
{
    assert(rows.push(row).drop_last() =~= rows);
    if let (Ok((names, places)), Some((name, file))) = (
        manifest::library_places(rows, root, dir, entries),
        manifest::library(row.0, row.1),
    ) {
        if let Ok(p) = rojo::path_of(
            entries,
            paths::relative(paths::path_join(paths::path_join(root, dir), file), root),
        ) {
            assert(names.push(name) =~= names + seq![name]);
            assert(places.push(p) =~= places + seq![p]);
        }
    }
}

/// What stands in the folder of the libraries is looked at by name, in order, each name
/// once.
pub proof fn law_shelf(found: Seq<(Text, Shelved)>, name: Text, what: Shelved, q: Text)
    ensures
        table::sorted(manifest::shelf(found)),
        table::get(manifest::shelf(Seq::empty()), q) is None,
        table::get(manifest::shelf(found.push((name, what))), q) == (if q == name {
            Some(what)
        } else {
            table::get(manifest::shelf(found), q)
        }),
    decreases found.len(),
{
    assert(found.push((name, what)).drop_last() =~= found);
    if found.len() > 0 {
        let some = found.drop_last();
        law_shelf(some, name, what, q);
        table::law_put_sorted(manifest::shelf(some), found.last().0, found.last().1);
    }
    table::law_get_put(manifest::shelf(found), name, what, q);
}

/// The file of the libraries: each brought in by its name, a type that has for each the
/// type of what was brought in, and a table that has each under its name.
pub proof fn law_libraries_are_made_of(names: Seq<Text>, places: Seq<Text>)
    ensures
        names.len() == 0 ==> manifest::libs_text(names, places) == "--!strict\n"@ + "\n"@
            + "export type Api = {}\n"@ + "\n"@ + "return {} :: Api\n"@,
        names.len() > 0 ==> manifest::libs_text(names, places) == "--!strict\n"@ + "\n"@
            + emit::block(brought_in(names, places)) + "\n"@ + (("export type Api = {"@ + "\n"@
            + ended(
            Seq::new(names.len(), |i: int| "\t"@ + names[i] + ": typeof("@ + names[i] + "),"@),
        ) + "}"@ + "\n"@)) + "\n"@ + (("return {"@ + "\n"@ + ended(
            Seq::new(names.len(), |i: int| "\t"@ + names[i] + " = "@ + names[i] + ","@),
        ) + "} :: Api"@ + "\n"@)),
{
    lemma_brought_in(names, places);
    let types = Seq::new(names.len(), |i: int| "\t"@ + names[i] + ": typeof("@ + names[i] + "),"@);
    let values = Seq::new(names.len(), |i: int| "\t"@ + names[i] + " = "@ + names[i] + ","@);
    assert(names.map_values(|n: Text| "\t"@ + n + ": typeof("@ + n + "),"@) =~= types);
    assert(names.map_values(|n: Text| "\t"@ + n + " = "@ + n + ","@) =~= values);
    lemma_type_with("export type Api = {"@, types, "}"@);
    lemma_type_with("return {"@, values, "} :: Api"@);
    lemma_joined_three(
        "--!strict\n"@,
        "export type Api = {}\n"@,
        "return {} :: Api\n"@,
        "\n"@,
    );
    lemma_joined_four(
        "--!strict\n"@,
        emit::block(brought_in(names, places)),
        emit::block(seq!["export type Api = {"@] + types + seq!["}"@]),
        emit::block(seq!["return {"@] + values + seq!["} :: Api"@]),
        "\n"@,
    );
}

proof fn lemma_joined_three(a: Text, b: Text, c: Text, n: Text)
    ensures
        text::joined(seq![a, b, c], n) == a + n + b + n + c,
{
    assert(seq![a, b, c].drop_last() =~= seq![a, b]);
    assert(seq![a, b].drop_last() =~= seq![a]);
    reveal_with_fuel(text::joined, 3);
}

proof fn lemma_joined_four(a: Text, b: Text, c: Text, d: Text, n: Text)
    ensures
        text::joined(seq![a, b, c, d], n) == a + n + b + n + c + n + d,
{
    assert(seq![a, b, c, d].drop_last() =~= seq![a, b, c]);
    lemma_joined_three(a, b, c, n);
    reveal_with_fuel(text::joined, 2);
}

/// Lines with an empty line for none: what is between the strict line and the types.
pub proof fn law_block(lines: Seq<Text>)
    ensures
        lines.len() > 0 ==> emit::block(lines) == ended(lines),
        lines.len() == 0 ==> emit::block(lines) == "\n"@,
{
    if lines.len() > 0 {
        leaf::lemma_block(lines);
    } else {
        assert(emit::block(lines) =~= "\n"@);
    }
}

} // verus!
