//! What is written for a whole side: the Manifest, the module list, the
//! libraries.

use vstd::prelude::*;

use crate::emit::{self, block_of, leaf_path, line_of_require, line_of_service};
use crate::layout::{self, Layout, LayoutView};
use crate::module::{Module, ModuleView};
use crate::paths;
use crate::rojo::{self, MapError, MapFault, RojoMap, Side};
use crate::table::{self, Rows, Table};
use crate::text::{self, copy, same, Text};

verus! {

/// Why modules do not go together.
#[derive(Debug)]
pub enum ManifestError {
    /// Two modules have the same id.
    Duplicate { id: String, first: String, second: String },
    /// A file has no place in the game.
    Place(MapError),
    /// Two modules have the same leaf.
    SameLeaf { first: String, second: String, leaf: String },
    /// A module requires one that does not exist.
    Missing { file: String, dep: String, available: Vec<String> },
    /// A module requires one that its side cannot see.
    Unseen { file: String, mine: Side, dep: String, theirs: Side, target: String },
}

/// What a `ManifestError` says.
pub enum ManifestFault {
    Duplicate { id: Text, first: Text, second: Text },
    Place(MapFault),
    SameLeaf { first: Text, second: Text, leaf: Text },
    Missing { file: Text, dep: Text, available: Seq<Text> },
    Unseen { file: Text, mine: Side, dep: Text, theirs: Side, target: Text },
}

impl DeepView for ManifestError {
    type V = ManifestFault;

    open spec fn deep_view(&self) -> ManifestFault {
        match self {
            ManifestError::Duplicate { id, first, second } => ManifestFault::Duplicate {
                id: id@,
                first: first@,
                second: second@,
            },
            ManifestError::Place(e) => ManifestFault::Place(e.deep_view()),
            ManifestError::SameLeaf { first, second, leaf } => ManifestFault::SameLeaf {
                first: first@,
                second: second@,
                leaf: leaf@,
            },
            ManifestError::Missing { file, dep, available } => ManifestFault::Missing {
                file: file@,
                dep: dep@,
                available: available.deep_view(),
            },
            ManifestError::Unseen { file, mine, dep, theirs, target } => ManifestFault::Unseen {
                file: file@,
                mine: *mine,
                dep: dep@,
                theirs: *theirs,
                target: target@,
            },
        }
    }
}

/// A text in quotes, as the `Debug` of `str` writes it.
pub uninterp spec fn quoted(t: Text) -> Text;

/// `<str as Debug>::fmt`: puts a text in quotes, with what cannot be printed
/// escaped. What it writes depends on the text alone.
#[verifier::external_body]
fn quote(s: &str) -> (r: String)
    ensures
        r@ == quoted(s@),
{
    format!("{s:?}")
}

/// A fault in words.
pub open spec fn fault_message(f: ManifestFault) -> Text {
    match f {
        ManifestFault::Duplicate { id, first, second } => duplicate_message(
            quoted(id),
            first,
            second,
        ),
        ManifestFault::Place(f) => rojo::fault_message(f),
        ManifestFault::SameLeaf { first, second, leaf } => same_leaf_message(first, second, leaf),
        ManifestFault::Missing { file, dep, available } => missing_message(
            file,
            quoted(dep),
            available,
        ),
        ManifestFault::Unseen { file, mine, dep, theirs, target } => unseen_message(
            file,
            mine,
            dep,
            quoted(dep),
            theirs,
            target,
        ),
    }
}

/// Two modules have the same id, which is given in quotes.
pub open spec fn duplicate_message(id: Text, first: Text, second: Text) -> Text {
    "duplicate ID "@ + id + " in "@ + first + " and "@ + second
}

/// Two modules have the same leaf.
pub open spec fn same_leaf_message(first: Text, second: Text, leaf: Text) -> Text {
    first + " and "@ + second + " would both write "@ + leaf
        + ".\n  A type leaf is named after the ID of its module: give one of them another ID."@
}

/// A module requires one that does not exist, whose id is given in quotes.
pub open spec fn missing_message(file: Text, dep: Text, available: Seq<Text>) -> Text {
    "[Manifest] "@ + file + " requires "@ + dep + ", which does not exist. Available: "@
        + text::joined(available, ", "@)
}

/// A module requires one that its side cannot see, whose id is given as it is
/// and in quotes.
pub open spec fn unseen_message(
    file: Text,
    mine: Side,
    dep: Text,
    dep_in_quotes: Text,
    theirs: Side,
    target: Text,
) -> Text {
    "[Manifest] "@ + file + " is "@ + rojo::side_name(mine) + " and requires "@ + dep_in_quotes
        + ", which is "@ + rojo::side_name(theirs) + ".\n  "@ + rojo::side_name(mine)
        + " cannot see "@ + rojo::side_name(theirs)
        + " — move one of them, or go through the network.\n  ("@ + dep + " is in "@ + target
        + ")"@
}

/// Two modules have the same id, which is given in quotes.
pub fn say_duplicate(id: &str, first: &str, second: &str) -> (r: String)
    ensures
        r@ == duplicate_message(id@, first@, second@),
{
    copy("duplicate ID ").concat(id).concat(" in ").concat(first).concat(" and ").concat(second)
}

/// A module requires one that does not exist, whose id is given in quotes.
pub fn say_missing(file: &str, dep: &str, available: &Vec<String>) -> (r: String)
    ensures
        r@ == missing_message(file@, dep@, available.deep_view()),
{
    copy("[Manifest] ").concat(file).concat(" requires ").concat(dep).concat(
        ", which does not exist. Available: ",
    ).concat(text::join(available, ", ").as_str())
}

/// A module requires one that its side cannot see.
pub fn say_unseen(
    file: &str,
    mine: Side,
    dep: &str,
    dep_in_quotes: &str,
    theirs: Side,
    target: &str,
) -> (r: String)
    ensures
        r@ == unseen_message(file@, mine, dep@, dep_in_quotes@, theirs, target@),
{
    copy("[Manifest] ").concat(file).concat(" is ").concat(mine.name()).concat(
        " and requires ",
    ).concat(dep_in_quotes).concat(", which is ").concat(theirs.name()).concat(".\n  ").concat(
        mine.name(),
    ).concat(" cannot see ").concat(theirs.name()).concat(
        " — move one of them, or go through the network.\n  (",
    ).concat(dep).concat(" is in ").concat(target).concat(")")
}

impl ManifestError {
    /// The error in words.
    pub fn message(&self) -> (r: String)
        ensures
            r@ == fault_message(self.deep_view()),
    {
        match self {
            ManifestError::Duplicate { id, first, second } => say_duplicate(
                quote(id.as_str()).as_str(),
                first.as_str(),
                second.as_str(),
            ),
            ManifestError::Place(e) => e.message(),
            ManifestError::SameLeaf { first, second, leaf } => copy(first.as_str()).concat(
                " and ",
            ).concat(second.as_str()).concat(" would both write ").concat(leaf.as_str()).concat(
                ".\n  A type leaf is named after the ID of its module: give one of them another ID.",
            ),
            ManifestError::Missing { file, dep, available } => say_missing(
                file.as_str(),
                quote(dep.as_str()).as_str(),
                available,
            ),
            ManifestError::Unseen { file, mine, dep, theirs, target } => say_unseen(
                file.as_str(),
                *mine,
                dep.as_str(),
                quote(dep.as_str()).as_str(),
                *theirs,
                target.as_str(),
            ),
        }
    }
}

/// The first of some modules that has this id.
pub open spec fn with_id(ms: Seq<ModuleView>, id: Text) -> Option<ModuleView>
    decreases ms.len(),
{
    if ms.len() == 0 {
        None
    } else {
        match with_id(ms.drop_last(), id) {
            Some(m) => Some(m),
            None => if ms.last().id == id {
                Some(ms.last())
            } else {
                None
            },
        }
    }
}

/// The first module whose id another one had before, as a fault.
pub open spec fn duplicate_in(ms: Seq<ModuleView>) -> Option<ManifestFault>
    decreases ms.len(),
{
    if ms.len() == 0 {
        None
    } else {
        match duplicate_in(ms.drop_last()) {
            Some(f) => Some(f),
            None => match with_id(ms.drop_last(), ms.last().id) {
                Some(m) => Some(
                    ManifestFault::Duplicate {
                        id: ms.last().id,
                        first: m.file,
                        second: ms.last().file,
                    },
                ),
                None => None,
            },
        }
    }
}

/// The side of each module, by id.
pub open spec fn sides_of(ms: Seq<ModuleView>, entries: Rows<Seq<Text>>) -> Result<
    Rows<Side>,
    MapFault,
>
    decreases ms.len(),
{
    if ms.len() == 0 {
        Ok(Seq::empty())
    } else {
        match sides_of(ms.drop_last(), entries) {
            Ok(rows) => match rojo::side_at(entries, ms.last().file) {
                Ok(side) => Ok(table::put(rows, ms.last().id, side)),
                Err(f) => Err(f),
            },
            Err(f) => Err(f),
        }
    }
}

/// The leaf of a module in the folder of all leaves: its side, then its id.
pub open spec fn leaf_name(sides: Rows<Side>, id: Text) -> Text {
    paths::path_join(
        "ModuxTypes/"@ + rojo::side_name(table::get(sides, id)->0),
        id + ".luau"@,
    )
}

/// The first of some modules whose leaf is at this place.
pub open spec fn with_leaf(
    ms: Seq<ModuleView>,
    sides: Rows<Side>,
    place: Seq<paths::PartView>,
) -> Option<ModuleView>
    decreases ms.len(),
{
    if ms.len() == 0 {
        None
    } else {
        match with_leaf(ms.drop_last(), sides, place) {
            Some(m) => Some(m),
            None => if paths::parts(leaf_name(sides, ms.last().id)) == place {
                Some(ms.last())
            } else {
                None
            },
        }
    }
}

/// The first module whose leaf another one has as well, as a fault.
pub open spec fn same_leaf_in(ms: Seq<ModuleView>, sides: Rows<Side>) -> Option<ManifestFault>
    decreases ms.len(),
{
    if ms.len() == 0 {
        None
    } else {
        let leaf = leaf_name(sides, ms.last().id);
        match same_leaf_in(ms.drop_last(), sides) {
            Some(f) => Some(f),
            None => match with_leaf(ms.drop_last(), sides, paths::parts(leaf)) {
                Some(m) => Some(
                    ManifestFault::SameLeaf { first: m.file, second: ms.last().file, leaf },
                ),
                None => None,
            },
        }
    }
}

/// The ids of some modules.
pub open spec fn ids_of(ms: Seq<ModuleView>) -> Seq<Text> {
    ms.map_values(|m: ModuleView| m.id)
}

/// What is wrong with a module's requiring `dep`.
pub open spec fn dep_fault(
    m: ModuleView,
    dep: Text,
    ms: Seq<ModuleView>,
    sides: Rows<Side>,
) -> Option<ManifestFault> {
    match with_id(ms, dep) {
        None => Some(
            ManifestFault::Missing {
                file: m.file,
                dep,
                available: table::distinct(ids_of(ms)),
            },
        ),
        Some(target) => {
            let mine = table::get(sides, m.id)->0;
            let theirs = table::get(sides, dep)->0;
            if mine.reaches(theirs) {
                None
            } else {
                Some(
                    ManifestFault::Unseen { file: m.file, mine, dep, theirs, target: target.file },
                )
            }
        },
    }
}

/// The first thing wrong with what a module requires.
pub open spec fn deps_fault(
    m: ModuleView,
    deps: Seq<Text>,
    ms: Seq<ModuleView>,
    sides: Rows<Side>,
) -> Option<ManifestFault>
    decreases deps.len(),
{
    if deps.len() == 0 {
        None
    } else {
        match deps_fault(m, deps.drop_last(), ms, sides) {
            Some(f) => Some(f),
            None => dep_fault(m, deps.last(), ms, sides),
        }
    }
}

/// The first thing wrong with what the first `n` modules require.
pub open spec fn requires_fault(ms: Seq<ModuleView>, n: int, sides: Rows<Side>) -> Option<
    ManifestFault,
>
    decreases n,
{
    if n <= 0 {
        None
    } else {
        match requires_fault(ms, n - 1, sides) {
            Some(f) => Some(f),
            None => deps_fault(ms[n - 1], ms[n - 1].declared_require, ms, sides),
        }
    }
}

/// The side of each module, or the first thing wrong: an id that two have, a
/// file without a place, a leaf that two have, a require of what does not exist
/// or cannot be seen.
pub open spec fn validated(ms: Seq<ModuleView>, entries: Rows<Seq<Text>>) -> Result<
    Rows<Side>,
    ManifestFault,
> {
    match duplicate_in(ms) {
        Some(f) => Err(f),
        None => match sides_of(ms, entries) {
            Err(f) => Err(ManifestFault::Place(f)),
            Ok(sides) => match same_leaf_in(ms, sides) {
                Some(f) => Err(f),
                None => match requires_fault(ms, ms.len() as int, sides) {
                    Some(f) => Err(f),
                    None => Ok(sides),
                },
            },
        },
    }
}

/// Every module has a side.
pub open spec fn covers(sides: Rows<Side>, ms: Seq<ModuleView>) -> bool {
    forall|i: int| 0 <= i < ms.len() ==> table::get(sides, (#[trigger] ms[i]).id) is Some
}

/// Sides, or the fault, as a value.
pub open spec fn outcome(r: Result<Table<Side>, ManifestError>) -> Result<
    Rows<Side>,
    ManifestFault,
> {
    match r {
        Ok(sides) => Ok(sides@),
        Err(e) => Err(e.deep_view()),
    }
}

pub proof fn lemma_sides(ms: Seq<ModuleView>, entries: Rows<Seq<Text>>)
    requires
        sides_of(ms, entries) is Ok,
    ensures
        table::sorted(sides_of(ms, entries)->Ok_0),
        covers(sides_of(ms, entries)->Ok_0, ms),
    decreases ms.len(),
{
    if ms.len() > 0 {
        let some = ms.drop_last();
        lemma_sides(some, entries);
        let rows = sides_of(some, entries)->Ok_0;
        let side = rojo::side_at(entries, ms.last().file)->Ok_0;
        table::law_put_sorted(rows, ms.last().id, side);
        assert forall|i: int| 0 <= i < ms.len() implies table::get(
            table::put(rows, ms.last().id, side),
            (#[trigger] ms[i]).id,
        ) is Some by {
            table::law_get_put(rows, ms.last().id, side, ms[i].id);
            if i < some.len() {
                assert(some[i] == ms[i]);
            }
        }
    }
}

/// A module that is found by its id is one of them.
pub proof fn lemma_with_id(ms: Seq<ModuleView>, id: Text)
    ensures
        match with_id(ms, id) {
            Some(m) => m.id == id && ms.contains(m),
            None => forall|i: int| 0 <= i < ms.len() ==> (#[trigger] ms[i]).id != id,
        },
    decreases ms.len(),
{
    if ms.len() > 0 {
        let some = ms.drop_last();
        lemma_with_id(some, id);
        match with_id(some, id) {
            Some(m) => {
                let i = choose|i: int| 0 <= i < some.len() && some[i] == m;
                assert(ms[i] == m);
            },
            None => {
                assert forall|i: int| 0 <= i < ms.len() - 1 implies (#[trigger] ms[i]).id != id by {
                    assert(some[i] == ms[i]);
                }
            },
        }
    }
}

/// Finds a module by its id among the first `n`.
fn find_id(modules: &[Module], n: usize, id: &str) -> (r: Option<usize>)
    requires
        n <= modules@.len(),
    ensures
        match r {
            Some(i) => i < n && with_id(modules.deep_view().take(n as int), id@) == Some(
                modules@[i as int].deep_view(),
            ),
            None => with_id(modules.deep_view().take(n as int), id@) is None,
        },
{
    let ghost all = modules.deep_view();
    let mut i: usize = 0;
    let mut found: Option<usize> = None;
    while i < n
        invariant
            all == modules.deep_view(),
            i <= n <= modules@.len(),
            match found {
                Some(j) => j < i && with_id(all.take(i as int), id@) == Some(
                    modules@[j as int].deep_view(),
                ),
                None => with_id(all.take(i as int), id@) is None,
            },
        decreases n - i,
    {
        assert(all.take(i + 1).drop_last() =~= all.take(i as int));
        assert(all.take(i + 1).last() == modules@[i as int].deep_view());
        if found.is_none() && same(modules[i].id.as_str(), id) {
            found = Some(i);
        }
        i = i + 1;
    }
    found
}

/// Looks for two modules with the same id.
fn find_duplicate(modules: &[Module]) -> (r: Option<ManifestError>)
    ensures
        r.deep_view() == duplicate_in(modules.deep_view()),
{
    let ghost all = modules.deep_view();
    let mut i: usize = 0;
    while i < modules.len()
        invariant
            all == modules.deep_view(),
            i <= all.len(),
            duplicate_in(all.take(i as int)) is None,
        decreases modules.len() - i,
    {
        assert(all.take(i + 1).drop_last() =~= all.take(i as int));
        assert(all.take(i + 1).last() == modules@[i as int].deep_view());
        let m = &modules[i];
        if let Some(j) = find_id(modules, i, m.id.as_str()) {
            let r = ManifestError::Duplicate {
                id: copy(m.id.as_str()),
                first: copy(modules[j].file.as_str()),
                second: copy(m.file.as_str()),
            };
            proof {
                assert(Some(r.deep_view()) == duplicate_in(all.take(i + 1)));
                lemma_duplicate_stays(all, i + 1);
            }
            return Some(r);
        }
        i = i + 1;
    }
    assert(all.take(i as int) =~= all);
    None
}

pub proof fn lemma_duplicate_stays(ms: Seq<ModuleView>, n: int)
    requires
        0 <= n <= ms.len(),
        duplicate_in(ms.take(n)) is Some,
    ensures
        duplicate_in(ms) == duplicate_in(ms.take(n)),
    decreases ms.len() - n,
{
    if n < ms.len() {
        assert(ms.take(n + 1).drop_last() =~= ms.take(n));
        lemma_duplicate_stays(ms, n + 1);
    } else {
        assert(ms.take(n) =~= ms);
    }
}

pub proof fn lemma_sides_stay(ms: Seq<ModuleView>, entries: Rows<Seq<Text>>, n: int)
    requires
        0 <= n <= ms.len(),
        sides_of(ms.take(n), entries) is Err,
    ensures
        sides_of(ms, entries) == sides_of(ms.take(n), entries),
    decreases ms.len() - n,
{
    if n < ms.len() {
        assert(ms.take(n + 1).drop_last() =~= ms.take(n));
        lemma_sides_stay(ms, entries, n + 1);
    } else {
        assert(ms.take(n) =~= ms);
    }
}

/// The side of each module.
fn find_sides(modules: &[Module], map: &RojoMap) -> (r: Result<Table<Side>, MapError>)
    ensures
        match r {
            Ok(sides) => sides.wf() && sides_of(modules.deep_view(), map@) == Ok::<
                Rows<Side>,
                MapFault,
            >(sides@),
            Err(e) => sides_of(modules.deep_view(), map@) == Err::<Rows<Side>, MapFault>(
                e.deep_view(),
            ),
        },
{
    let ghost all = modules.deep_view();
    let mut sides: Table<Side> = Table::new();
    let mut i: usize = 0;
    while i < modules.len()
        invariant
            all == modules.deep_view(),
            i <= all.len(),
            sides.wf(),
            sides_of(all.take(i as int), map@) == Ok::<Rows<Side>, MapFault>(sides@),
        decreases modules.len() - i,
    {
        assert(all.take(i + 1).drop_last() =~= all.take(i as int));
        assert(all.take(i + 1).last() == modules@[i as int].deep_view());
        match map.side(modules[i].file.as_str()) {
            Ok(side) => sides.put(modules[i].id.as_str(), side),
            Err(e) => {
                proof {
                    lemma_sides_stay(all, map@, i + 1);
                }
                return Err(e);
            },
        }
        i = i + 1;
    }
    assert(all.take(i as int) =~= all);
    Ok(sides)
}

/// The ids of some modules, in order.
fn sorted_ids(modules: &[Module]) -> (r: Vec<String>)
    ensures
        r.deep_view() == table::distinct(ids_of(modules.deep_view())),
{
    let ghost all = ids_of(modules.deep_view());
    let mut out: Vec<String> = Vec::new();
    let mut i: usize = 0;
    assert(out.deep_view() =~= Seq::empty());
    assert(all.take(0) =~= Seq::empty());
    while i < modules.len()
        invariant
            all == ids_of(modules.deep_view()),
            i <= modules@.len(),
            out.deep_view() == table::distinct(all.take(i as int)),
        decreases modules.len() - i,
    {
        assert(all.take(i + 1).drop_last() =~= all.take(i as int));
        assert(all[i as int] == modules@[i as int].id@);
        table::add_to(&mut out, modules[i].id.as_str());
        i = i + 1;
    }
    assert(all.take(i as int) =~= all);
    out
}

/// Looks at a module's requiring `dep`.
fn check_dep(modules: &[Module], k: usize, dep: &str, sides: &Table<Side>) -> (r: Option<
    ManifestError,
>)
    requires
        k < modules@.len(),
        covers(sides@, modules.deep_view()),
    ensures
        r.deep_view() == dep_fault(
            modules@[k as int].deep_view(),
            dep@,
            modules.deep_view(),
            sides@,
        ),
{
    let ghost all = modules.deep_view();
    let n: usize = modules.len();
    let m = &modules[k];
    proof {
        assert(all.take(n as int) =~= all);
        lemma_with_id(all, dep@);
        assert(all[k as int] == modules@[k as int].deep_view());
    }
    match find_id(modules, n, dep) {
        None => Some(
            ManifestError::Missing {
                file: copy(m.file.as_str()),
                dep: copy(dep),
                available: sorted_ids(modules),
            },
        ),
        Some(i) => {
            assert(all[i as int] == modules@[i as int].deep_view());
            let mine = *sides.get(m.id.as_str()).unwrap();
            let theirs = *sides.get(dep).unwrap();
            if mine.sees(theirs) {
                None
            } else {
                Some(
                    ManifestError::Unseen {
                        file: copy(m.file.as_str()),
                        mine,
                        dep: copy(dep),
                        theirs,
                        target: copy(modules[i].file.as_str()),
                    },
                )
            }
        },
    }
}

pub proof fn lemma_deps_stay(
    m: ModuleView,
    deps: Seq<Text>,
    ms: Seq<ModuleView>,
    sides: Rows<Side>,
    n: int,
)
    requires
        0 <= n <= deps.len(),
        deps_fault(m, deps.take(n), ms, sides) is Some,
    ensures
        deps_fault(m, deps, ms, sides) == deps_fault(m, deps.take(n), ms, sides),
    decreases deps.len() - n,
{
    if n < deps.len() {
        assert(deps.take(n + 1).drop_last() =~= deps.take(n));
        lemma_deps_stay(m, deps, ms, sides, n + 1);
    } else {
        assert(deps.take(n) =~= deps);
    }
}

/// Looks at what a module requires.
fn check_deps(modules: &[Module], k: usize, sides: &Table<Side>) -> (r: Option<ManifestError>)
    requires
        k < modules@.len(),
        covers(sides@, modules.deep_view()),
    ensures
        r.deep_view() == deps_fault(
            modules@[k as int].deep_view(),
            modules@[k as int].deep_view().declared_require,
            modules.deep_view(),
            sides@,
        ),
{
    let ghost m = modules@[k as int].deep_view();
    let ghost ms = modules.deep_view();
    let ghost all = m.declared_require;
    let deps = &modules[k].declared_require;
    let mut i: usize = 0;
    while i < deps.len()
        invariant
            k < modules@.len(),
            ms == modules.deep_view(),
            m == modules@[k as int].deep_view(),
            covers(sides@, ms),
            all == deps.deep_view(),
            all == m.declared_require,
            i <= all.len(),
            deps_fault(m, all.take(i as int), ms, sides@) is None,
        decreases deps.len() - i,
    {
        assert(all.take(i + 1).drop_last() =~= all.take(i as int));
        if let Some(e) = check_dep(modules, k, deps[i].as_str(), sides) {
            proof {
                lemma_deps_stay(m, all, ms, sides@, i + 1);
            }
            return Some(e);
        }
        i = i + 1;
    }
    assert(all.take(i as int) =~= all);
    None
}

pub proof fn lemma_requires_stay(ms: Seq<ModuleView>, n: int, to: int, sides: Rows<Side>)
    requires
        0 <= n <= to,
        requires_fault(ms, n, sides) is Some,
    ensures
        requires_fault(ms, to, sides) == requires_fault(ms, n, sides),
    decreases to - n,
{
    if n < to {
        lemma_requires_stay(ms, n, to - 1, sides);
    }
}

pub proof fn lemma_same_leaf_stays(ms: Seq<ModuleView>, sides: Rows<Side>, n: int)
    requires
        0 <= n <= ms.len(),
        same_leaf_in(ms.take(n), sides) is Some,
    ensures
        same_leaf_in(ms, sides) == same_leaf_in(ms.take(n), sides),
    decreases ms.len() - n,
{
    if n < ms.len() {
        assert(ms.take(n + 1).drop_last() =~= ms.take(n));
        lemma_same_leaf_stays(ms, sides, n + 1);
    } else {
        assert(ms.take(n) =~= ms);
    }
}

/// The leaf of a module in the folder of all leaves.
fn name_of_leaf(m: &Module, sides: &Table<Side>) -> (r: String)
    requires
        table::get(sides@, m.id@) is Some,
    ensures
        r@ == leaf_name(sides@, m.id@),
{
    let side = *sides.get(m.id.as_str()).unwrap();
    paths::join_path(
        copy("ModuxTypes/").concat(side.name()).as_str(),
        copy(m.id.as_str()).concat(".luau").as_str(),
    )
}

/// Finds a module by its leaf among the first `n`.
fn find_leaf(modules: &[Module], n: usize, sides: &Table<Side>, leaf: &str) -> (r: Option<usize>)
    requires
        n <= modules@.len(),
        covers(sides@, modules.deep_view()),
    ensures
        match r {
            Some(i) => i < n && with_leaf(
                modules.deep_view().take(n as int),
                sides@,
                paths::parts(leaf@),
            ) == Some(modules@[i as int].deep_view()),
            None => with_leaf(
                modules.deep_view().take(n as int),
                sides@,
                paths::parts(leaf@),
            ) is None,
        },
{
    let ghost all = modules.deep_view();
    let ghost place = paths::parts(leaf@);
    let mut i: usize = 0;
    let mut found: Option<usize> = None;
    while i < n
        invariant
            all == modules.deep_view(),
            place == paths::parts(leaf@),
            covers(sides@, all),
            i <= n <= modules@.len(),
            match found {
                Some(j) => j < i && with_leaf(all.take(i as int), sides@, place) == Some(
                    modules@[j as int].deep_view(),
                ),
                None => with_leaf(all.take(i as int), sides@, place) is None,
            },
        decreases n - i,
    {
        assert(all.take(i + 1).drop_last() =~= all.take(i as int));
        assert(all[i as int] == modules@[i as int].deep_view());
        if found.is_none() && paths::same_path(name_of_leaf(&modules[i], sides).as_str(), leaf) {
            found = Some(i);
        }
        i = i + 1;
    }
    found
}

/// Looks for two modules with the same leaf.
fn find_same_leaf(modules: &[Module], sides: &Table<Side>) -> (r: Option<ManifestError>)
    requires
        covers(sides@, modules.deep_view()),
    ensures
        r.deep_view() == same_leaf_in(modules.deep_view(), sides@),
{
    let ghost all = modules.deep_view();
    let mut i: usize = 0;
    while i < modules.len()
        invariant
            all == modules.deep_view(),
            covers(sides@, all),
            i <= all.len(),
            same_leaf_in(all.take(i as int), sides@) is None,
        decreases modules.len() - i,
    {
        assert(all.take(i + 1).drop_last() =~= all.take(i as int));
        assert(all[i as int] == modules@[i as int].deep_view());
        let leaf = name_of_leaf(&modules[i], sides);
        if let Some(j) = find_leaf(modules, i, sides, leaf.as_str()) {
            let r = ManifestError::SameLeaf {
                first: copy(modules[j].file.as_str()),
                second: copy(modules[i].file.as_str()),
                leaf,
            };
            proof {
                assert(Some(r.deep_view()) == same_leaf_in(all.take(i + 1), sides@));
                lemma_same_leaf_stays(all, sides@, i + 1);
            }
            return Some(r);
        }
        i = i + 1;
    }
    assert(all.take(i as int) =~= all);
    None
}

/// Checks that modules go together, and finds the side of each.
///
/// Two that had the same leaf would write over one another, and one of them
/// would have the methods of the other: its type would be wrong, not missing.
pub fn validate(modules: &[Module], map: &RojoMap) -> (r: Result<Table<Side>, ManifestError>)
    ensures
        outcome(r) == validated(modules.deep_view(), map@),
        r matches Ok(sides) ==> sides.wf() && covers(sides@, modules.deep_view()),
{
    let ghost all = modules.deep_view();
    if let Some(e) = find_duplicate(modules) {
        return Err(e);
    }
    let sides = match find_sides(modules, map) {
        Ok(sides) => sides,
        Err(e) => {
            return Err(ManifestError::Place(e));
        },
    };
    proof {
        lemma_sides(all, map@);
    }
    if let Some(e) = find_same_leaf(modules, &sides) {
        return Err(e);
    }
    let mut i: usize = 0;
    while i < modules.len()
        invariant
            all == modules.deep_view(),
            duplicate_in(all) is None,
            same_leaf_in(all, sides@) is None,
            sides_of(all, map@) == Ok::<Rows<Side>, MapFault>(sides@),
            covers(sides@, all),
            i <= all.len(),
            requires_fault(all, i as int, sides@) is None,
        decreases modules.len() - i,
    {
        assert(all[i as int] == modules@[i as int].deep_view());
        if let Some(e) = check_deps(modules, i, &sides) {
            proof {
                lemma_requires_stay(all, i + 1, all.len() as int, sides@);
            }
            return Err(e);
        }
        i = i + 1;
    }
    Ok(sides)
}

/// The modules that a side sees, in order.
pub open spec fn visible(side: Side, ms: Seq<ModuleView>, sides: Rows<Side>) -> Seq<ModuleView>
    decreases ms.len(),
{
    if ms.len() == 0 {
        Seq::empty()
    } else {
        let some = visible(side, ms.drop_last(), sides);
        if side.reaches(table::get(sides, ms.last().id)->0) {
            some.push(ms.last())
        } else {
            some
        }
    }
}

/// The modules that a side sees.
fn seen_from<'a>(side: Side, modules: &'a [Module], sides: &Table<Side>) -> (r: Vec<&'a Module>)
    requires
        covers(sides@, modules.deep_view()),
    ensures
        r.deep_view() == visible(side, modules.deep_view(), sides@),
{
    let ghost all = modules.deep_view();
    let mut out: Vec<&'a Module> = Vec::new();
    let mut i: usize = 0;
    assert(out.deep_view() =~= Seq::empty());
    while i < modules.len()
        invariant
            all == modules.deep_view(),
            covers(sides@, all),
            i <= all.len(),
            out.deep_view() == visible(side, all.take(i as int), sides@),
        decreases modules.len() - i,
    {
        assert(all.take(i + 1).drop_last() =~= all.take(i as int));
        assert(all[i as int] == modules@[i as int].deep_view());
        let m: &'a Module = &modules[i];
        if side.sees(*sides.get(m.id.as_str()).unwrap()) {
            text::push(&mut out, m);
        }
        i = i + 1;
    }
    assert(all.take(i as int) =~= all);
    out
}

/// The services that paths begin with, in order, each once.
pub open spec fn roots_of(paths: Seq<Text>) -> Seq<Text>
    decreases paths.len(),
{
    if paths.len() == 0 {
        Seq::empty()
    } else {
        let some = roots_of(paths.drop_last());
        let root = text::head_of(paths.last(), '.');
        if root.len() > 0 {
            table::with_text(some, root)
        } else {
            some
        }
    }
}

/// The services that paths begin with.
fn roots(paths: &Vec<String>) -> (r: Vec<String>)
    ensures
        r.deep_view() == roots_of(paths.deep_view()),
{
    let ghost all = paths.deep_view();
    let mut out: Vec<String> = Vec::new();
    let mut i: usize = 0;
    assert(out.deep_view() =~= Seq::empty());
    while i < paths.len()
        invariant
            all == paths.deep_view(),
            i <= all.len(),
            out.deep_view() == roots_of(all.take(i as int)),
        decreases paths.len() - i,
    {
        assert(all.take(i + 1).drop_last() =~= all.take(i as int));
        let root = text::head(paths[i].as_str(), '.');
        if !root.as_str().is_empty() {
            table::add_to(&mut out, root.as_str());
        }
        i = i + 1;
    }
    assert(all.take(i as int) =~= all);
    out
}

/// The lines that bring in what paths begin with, then what they lead to: one
/// service each, one require each.
pub open spec fn requires_lines(names: Seq<Text>, paths: Seq<Text>) -> Seq<Text> {
    roots_of(paths).map_values(|r: Text| emit::service_line(r, r)) + Seq::new(
        names.len(),
        |i: int| emit::require_line(names[i], paths[i]),
    )
}

/// One service for each root.
fn service_lines(roots: &Vec<String>) -> (r: Vec<String>)
    ensures
        r.deep_view() == roots.deep_view().map_values(|r: Text| emit::service_line(r, r)),
{
    let ghost want = roots.deep_view().map_values(|r: Text| emit::service_line(r, r));
    let mut out: Vec<String> = Vec::new();
    let mut i: usize = 0;
    while i < roots.len()
        invariant
            i <= roots@.len(),
            want == roots.deep_view().map_values(|r: Text| emit::service_line(r, r)),
            out.deep_view() =~= want.take(i as int),
        decreases roots.len() - i,
    {
        let line = line_of_service(roots[i].as_str(), roots[i].as_str());
        assert(want[i as int] == line@);
        assert(want.take(i + 1) =~= want.take(i as int).push(line@));
        text::push(&mut out, line);
        i = i + 1;
    }
    assert(want.take(i as int) =~= want);
    out
}

/// The lines that bring in what paths lead to.
fn lines_of_requires(names: &Vec<String>, paths: &Vec<String>) -> (r: Vec<String>)
    requires
        names@.len() == paths@.len(),
    ensures
        r.deep_view() == requires_lines(names.deep_view(), paths.deep_view()),
{
    let mut out = service_lines(&roots(paths));
    let ghost first = out.deep_view();
    let ghost want = Seq::new(
        names.deep_view().len(),
        |i: int| emit::require_line(names.deep_view()[i], paths.deep_view()[i]),
    );
    let mut i: usize = 0;
    assert(first + want.take(0) =~= first);
    while i < names.len()
        invariant
            i <= names@.len(),
            names@.len() == paths@.len(),
            want == Seq::new(
                names.deep_view().len(),
                |i: int| emit::require_line(names.deep_view()[i], paths.deep_view()[i]),
            ),
            out.deep_view() == first + want.take(i as int),
        decreases names.len() - i,
    {
        let line = line_of_require(names[i].as_str(), paths[i].as_str());
        assert(want[i as int] == line@);
        assert((first + want.take(i as int)).push(line@) =~= first + want.take(i + 1));
        text::push(&mut out, line);
        i = i + 1;
    }
    assert(want.take(i as int) =~= want);
    out
}

/// The type of a module, as the Manifest names it.
pub open spec fn entry_of(id: Text) -> Text {
    id + ".Public"@
}

/// The type of a module, as the Manifest names it.
pub fn entry(m: &Module) -> (r: String)
    ensures
        r@ == entry_of(m.id@),
{
    copy(m.id.as_str()).concat(".Public")
}

/// The modules of a kind, in order.
pub open spec fn of_kind(ms: Seq<ModuleView>, kind: Text) -> Seq<ModuleView>
    decreases ms.len(),
{
    if ms.len() == 0 {
        Seq::empty()
    } else {
        let some = of_kind(ms.drop_last(), kind);
        if ms.last().kind == kind {
            some.push(ms.last())
        } else {
            some
        }
    }
}

/// The modules of a kind.
fn pick_kind<'a>(modules: &Vec<&'a Module>, kind: &str) -> (r: Vec<&'a Module>)
    ensures
        r.deep_view() == of_kind(modules.deep_view(), kind@),
{
    let ghost all = modules.deep_view();
    let mut out: Vec<&'a Module> = Vec::new();
    let mut i: usize = 0;
    assert(out.deep_view() =~= Seq::empty());
    while i < modules.len()
        invariant
            all == modules.deep_view(),
            i <= all.len(),
            out.deep_view() == of_kind(all.take(i as int), kind@),
        decreases modules.len() - i,
    {
        assert(all.take(i + 1).drop_last() =~= all.take(i as int));
        let m: &'a Module = modules[i];
        assert(all[i as int] == m.deep_view());
        if same(m.kind.as_str(), kind) {
            text::push(&mut out, m);
        }
        i = i + 1;
    }
    assert(all.take(i as int) =~= all);
    out
}

/// The kinds that a side has a type for, with the name of the type.
pub open spec fn buckets_of(side: Side) -> Seq<(Text, Text)> {
    match side {
        Side::Client => seq![
            ("Controller"@, "AllControllers"@),
            ("Component"@, "AllComponents"@),
        ],
        Side::Server => seq![("Service"@, "AllServices"@), ("Component"@, "AllComponents"@)],
        Side::Shared => Seq::empty(),
    }
}

/// A module in the type of its kind.
pub open spec fn entry_line(m: ModuleView) -> Text {
    "\t"@ + m.id + ": "@ + entry_of(m.id) + ","@
}

/// The type of a kind: its modules by id.
pub open spec fn bucket_text(ms: Seq<ModuleView>, kind: Text, alias: Text) -> Text {
    let some = of_kind(ms, kind);
    if some.len() == 0 {
        "export type "@ + alias + " = {}\n"@
    } else {
        emit::block(
            seq!["export type "@ + alias + " = {"@] + some.map_values(
                |m: ModuleView| entry_line(m),
            ) + seq!["}"@],
        )
    }
}

/// The type of a kind.
fn bucket(modules: &Vec<&Module>, kind: &str, alias: &str) -> (r: String)
    ensures
        r@ == bucket_text(modules.deep_view(), kind@, alias@),
{
    let some = pick_kind(modules, kind);
    if some.len() == 0 {
        return copy("export type ").concat(alias).concat(" = {}\n");
    }
    let ghost want = some.deep_view().map_values(|m: ModuleView| entry_line(m));
    let mut body: Vec<String> = Vec::new();
    text::push(&mut body, copy("export type ").concat(alias).concat(" = {"));
    let ghost first = seq!["export type "@ + alias@ + " = {"@];
    let mut i: usize = 0;
    assert(body.deep_view() =~= first + want.take(0));
    while i < some.len()
        invariant
            i <= some@.len(),
            want == some.deep_view().map_values(|m: ModuleView| entry_line(m)),
            body.deep_view() == first + want.take(i as int),
        decreases some.len() - i,
    {
        let m = some[i];
        let line = copy("\t").concat(m.id.as_str()).concat(": ").concat(entry(m).as_str()).concat(
            ",",
        );
        assert(some.deep_view()[i as int] == m.deep_view());
        assert(want[i as int] == line@);
        assert((first + want.take(i as int)).push(line@) =~= first + want.take(i + 1));
        text::push(&mut body, line);
        i = i + 1;
    }
    assert(want.take(i as int) =~= want);
    text::push(&mut body, copy("}"));
    assert(body.deep_view() =~= first + want + seq!["}"@]);
    block_of(&body)
}

/// What can be done with a component.
pub open spec fn access_lines(m: ModuleView) -> Seq<Text> {
    let public = entry_of(m.id);
    seq![
        "\t"@ + m.id + ": {"@,
        "\t\tGet: (self: any, instance: Instance) -> "@ + public + "?,"@,
        "\t\tCreate: (self: any, instance: Instance) -> "@ + public + ","@,
        "\t\tAll: (self: any) -> { "@ + public + " },"@,
        "\t\tDestroy: (self: any, instance: Instance) -> (),"@,
        "\t},"@,
    ]
}

/// What can be done with each of some components.
pub open spec fn accesses(ms: Seq<ModuleView>) -> Seq<Text>
    decreases ms.len(),
{
    if ms.len() == 0 {
        Seq::empty()
    } else {
        accesses(ms.drop_last()) + access_lines(ms.last())
    }
}

/// The type through which components are reached: one entry for each, by id.
pub open spec fn access_text(ms: Seq<ModuleView>) -> Text {
    let some = of_kind(ms, "Component"@);
    if some.len() == 0 {
        "export type ComponentAccess = {}\n"@
    } else {
        emit::block(seq!["export type ComponentAccess = {"@] + accesses(some) + seq!["}"@])
    }
}

/// The lines for one component.
fn lines_of_access(m: &Module, body: &mut Vec<String>)
    ensures
        final(body).deep_view() == old(body).deep_view() + access_lines(m.deep_view()),
{
    let ghost was = body.deep_view();
    let public = entry(m);
    text::push(body, copy("\t").concat(m.id.as_str()).concat(": {"));
    text::push(
        body,
        copy("\t\tGet: (self: any, instance: Instance) -> ").concat(public.as_str()).concat("?,"),
    );
    text::push(
        body,
        copy("\t\tCreate: (self: any, instance: Instance) -> ").concat(public.as_str()).concat(","),
    );
    text::push(body, copy("\t\tAll: (self: any) -> { ").concat(public.as_str()).concat(" },"));
    text::push(body, copy("\t\tDestroy: (self: any, instance: Instance) -> (),"));
    text::push(body, copy("\t},"));
    assert(body.deep_view() =~= was + access_lines(m.deep_view()));
}

/// The type through which components are reached.
fn component_access(modules: &Vec<&Module>) -> (r: String)
    ensures
        r@ == access_text(modules.deep_view()),
{
    let some = pick_kind(modules, "Component");
    if some.len() == 0 {
        return copy("export type ComponentAccess = {}\n");
    }
    let ghost all = some.deep_view();
    let mut body: Vec<String> = Vec::new();
    text::push(&mut body, copy("export type ComponentAccess = {"));
    let ghost first = seq!["export type ComponentAccess = {"@];
    let mut i: usize = 0;
    assert(body.deep_view() =~= first + accesses(all.take(0)));
    while i < some.len()
        invariant
            i <= some@.len(),
            all == some.deep_view(),
            body.deep_view() == first + accesses(all.take(i as int)),
        decreases some.len() - i,
    {
        assert(all.take(i + 1).drop_last() =~= all.take(i as int));
        assert(all[i as int] == some@[i as int].deep_view());
        let ghost had = accesses(all.take(i as int));
        let ghost new = access_lines(all[i as int]);
        lines_of_access(some[i], &mut body);
        assert(first + had + new =~= first + (had + new));
        i = i + 1;
    }
    assert(all.take(i as int) =~= all);
    text::push(&mut body, copy("}"));
    assert(body.deep_view() =~= first + accesses(all) + seq!["}"@]);
    block_of(&body)
}

/// The paths in the game of the leaves of some modules, or the first fault.
pub open spec fn leaf_places(
    ms: Seq<ModuleView>,
    sides: Rows<Side>,
    entries: Rows<Seq<Text>>,
    layout: LayoutView,
) -> Result<Seq<Text>, MapFault>
    decreases ms.len(),
{
    if ms.len() == 0 {
        Ok(Seq::empty())
    } else {
        match leaf_places(ms.drop_last(), sides, entries, layout) {
            Ok(some) => match rojo::path_of(entries, leaf_file(layout, sides, ms.last().id)) {
                Ok(path) => Ok(some.push(path)),
                Err(f) => Err(f),
            },
            Err(f) => Err(f),
        }
    }
}

/// The leaf of a module with this id.
pub open spec fn leaf_file(layout: LayoutView, sides: Rows<Side>, id: Text) -> Text {
    emit::leaf_of(layout, table::get(sides, id)->0, id)->0
}

/// The blocks of the types of a side.
pub open spec fn bucket_texts(ms: Seq<ModuleView>, side: Side) -> Seq<Text> {
    buckets_of(side).map_values(|b: (Text, Text)| bucket_text(ms, b.0, b.1))
}

/// The Manifest of a side that sees these modules, whose leaves are at these
/// paths.
pub open spec fn manifest_text(side: Side, ms: Seq<ModuleView>, places: Seq<Text>) -> Text {
    text::joined(
        seq!["--!strict\n"@, emit::block(requires_lines(ids_of(ms), places))] + bucket_texts(
            ms,
            side,
        ) + seq![access_text(ms), "return {}\n"@],
        "\n"@,
    )
}

/// The Manifest of a side, or the fault of the first leaf without a place.
pub open spec fn manifest_of(
    side: Side,
    ms: Seq<ModuleView>,
    sides: Rows<Side>,
    entries: Rows<Seq<Text>>,
    layout: LayoutView,
) -> Result<Text, MapFault> {
    let seen = visible(side, ms, sides);
    match leaf_places(seen, sides, entries, layout) {
        Ok(places) => Ok(manifest_text(side, seen, places)),
        Err(f) => Err(f),
    }
}

/// A text that is always there, or the fault, as a value.
pub open spec fn written(r: Result<Option<String>, MapError>) -> Option<Result<Text, MapFault>> {
    match r {
        Ok(Some(t)) => Some(Ok(t@)),
        Ok(None) => None,
        Err(e) => Some(Err(e.deep_view())),
    }
}

/// Lists, or the fault, as a value.
pub open spec fn listed(r: Result<Vec<String>, MapError>) -> Result<Seq<Text>, MapFault> {
    match r {
        Ok(list) => Ok(list.deep_view()),
        Err(e) => Err(e.deep_view()),
    }
}

proof fn lemma_places_stay(
    ms: Seq<ModuleView>,
    sides: Rows<Side>,
    entries: Rows<Seq<Text>>,
    layout: LayoutView,
    n: int,
)
    requires
        0 <= n <= ms.len(),
        leaf_places(ms.take(n), sides, entries, layout) is Err,
    ensures
        leaf_places(ms, sides, entries, layout) == leaf_places(
            ms.take(n),
            sides,
            entries,
            layout,
        ),
    decreases ms.len() - n,
{
    if n < ms.len() {
        assert(ms.take(n + 1).drop_last() =~= ms.take(n));
        lemma_places_stay(ms, sides, entries, layout, n + 1);
    } else {
        assert(ms.take(n) =~= ms);
    }
}

proof fn lemma_places_len(
    ms: Seq<ModuleView>,
    sides: Rows<Side>,
    entries: Rows<Seq<Text>>,
    layout: LayoutView,
)
    ensures
        leaf_places(ms, sides, entries, layout) matches Ok(places) ==> places.len() == ms.len(),
    decreases ms.len(),
{
    if ms.len() > 0 {
        lemma_places_len(ms.drop_last(), sides, entries, layout);
    }
}

/// What a side sees has a side.
proof fn lemma_visible(side: Side, ms: Seq<ModuleView>, sides: Rows<Side>)
    requires
        covers(sides, ms),
    ensures
        covers(sides, visible(side, ms, sides)),
    decreases ms.len(),
{
    if ms.len() > 0 {
        let some = ms.drop_last();
        assert forall|i: int| 0 <= i < some.len() implies table::get(
            sides,
            (#[trigger] some[i]).id,
        ) is Some by {
            assert(some[i] == ms[i]);
        }
        lemma_visible(side, some, sides);
        assert(table::get(sides, ms[ms.len() - 1].id) is Some);
    }
}

/// The paths in the game of the leaves of some modules.
fn places_of_leaves(
    modules: &Vec<&Module>,
    sides: &Table<Side>,
    map: &RojoMap,
    layout: &Layout,
) -> (r: Result<Vec<String>, MapError>)
    requires
        covers(sides@, modules.deep_view()),
        layout.deep_view().complete(),
    ensures
        listed(r) == leaf_places(modules.deep_view(), sides@, map@, layout.deep_view()),
{
    let ghost all = modules.deep_view();
    let ghost lay = layout.deep_view();
    let mut out: Vec<String> = Vec::new();
    let mut i: usize = 0;
    assert(out.deep_view() =~= Seq::empty());
    while i < modules.len()
        invariant
            all == modules.deep_view(),
            lay == layout.deep_view(),
            lay.complete(),
            covers(sides@, all),
            i <= all.len(),
            leaf_places(all.take(i as int), sides@, map@, lay) == Ok::<Seq<Text>, MapFault>(
                out.deep_view(),
            ),
        decreases modules.len() - i,
    {
        assert(all.take(i + 1).drop_last() =~= all.take(i as int));
        assert(all[i as int] == modules@[i as int].deep_view());
        let id = modules[i].id.as_str();
        let side = *sides.get(id).unwrap();
        assert(layout::types_dir_of(lay.types_dirs, side) is Some);
        match map.path(leaf_path(layout, side, id).as_str()) {
            Ok(path) => text::push(&mut out, path),
            Err(e) => {
                proof {
                    lemma_places_stay(all, sides@, map@, lay, i + 1);
                }
                return Err(e);
            },
        }
        i = i + 1;
    }
    assert(all.take(i as int) =~= all);
    Ok(out)
}

/// The ids of some modules.
fn ids(modules: &Vec<&Module>) -> (r: Vec<String>)
    ensures
        r.deep_view() == ids_of(modules.deep_view()),
{
    let ghost want = ids_of(modules.deep_view());
    let mut out: Vec<String> = Vec::new();
    let mut i: usize = 0;
    while i < modules.len()
        invariant
            want == ids_of(modules.deep_view()),
            i <= modules@.len(),
            out.deep_view() =~= want.take(i as int),
        decreases modules.len() - i,
    {
        let id = copy(modules[i].id.as_str());
        assert(want[i as int] == id@);
        assert(want.take(i + 1) =~= want.take(i as int).push(id@));
        text::push(&mut out, id);
        i = i + 1;
    }
    assert(want.take(i as int) =~= want);
    out
}

/// The types of a side: one for each kind it has.
fn buckets(side: Side, modules: &Vec<&Module>, blocks: &mut Vec<String>)
    ensures
        final(blocks).deep_view() == old(blocks).deep_view() + bucket_texts(
            modules.deep_view(),
            side,
        ),
{
    let ghost was = blocks.deep_view();
    match side {
        Side::Client => {
            text::push(blocks, bucket(modules, "Controller", "AllControllers"));
            text::push(blocks, bucket(modules, "Component", "AllComponents"));
        },
        Side::Server => {
            text::push(blocks, bucket(modules, "Service", "AllServices"));
            text::push(blocks, bucket(modules, "Component", "AllComponents"));
        },
        Side::Shared => {},
    }
    assert(blocks.deep_view() =~= was + bucket_texts(modules.deep_view(), side));
}

/// The Manifest of a side: the types of all the modules that it sees.
pub fn emit(
    side: Side,
    modules: &[Module],
    sides: &Table<Side>,
    map: &RojoMap,
    layout: &Layout,
) -> (r: Result<Option<String>, MapError>)
    requires
        covers(sides@, modules.deep_view()),
        layout.deep_view().complete(),
    ensures
        written(r) == Some(
            manifest_of(side, modules.deep_view(), sides@, map@, layout.deep_view()),
        ),
{
    let seen = seen_from(side, modules, sides);
    proof {
        lemma_visible(side, modules.deep_view(), sides@);
        lemma_places_len(seen.deep_view(), sides@, map@, layout.deep_view());
    }
    let places = match places_of_leaves(&seen, sides, map, layout) {
        Ok(places) => places,
        Err(e) => {
            return Err(e);
        },
    };
    let names = ids(&seen);
    let mut blocks: Vec<String> = Vec::new();
    text::push(&mut blocks, copy("--!strict\n"));
    text::push(&mut blocks, block_of(&lines_of_requires(&names, &places)));
    let ghost first = seq![
        "--!strict\n"@,
        emit::block(requires_lines(ids_of(seen.deep_view()), places.deep_view())),
    ];
    assert(blocks.deep_view() =~= first);
    buckets(side, &seen, &mut blocks);
    text::push(&mut blocks, component_access(&seen));
    text::push(&mut blocks, copy("return {}\n"));
    assert(blocks.deep_view() =~= first + bucket_texts(seen.deep_view(), side) + seq![
        access_text(seen.deep_view()),
        "return {}\n"@,
    ]);
    Ok(Some(text::join(&blocks, "\n")))
}

/// Lines with a line feed after each.
pub open spec fn lines_text(lines: Seq<Text>) -> Text
    decreases lines.len(),
{
    if lines.len() == 0 {
        Seq::empty()
    } else {
        lines_text(lines.drop_last()) + lines.last() + "\n"@
    }
}

/// Appends lines with a line feed after each.
fn append_lines(out: &mut String, lines: &Vec<String>)
    ensures
        final(out)@ == old(out)@ + lines_text(lines.deep_view()),
{
    let ghost was = out@;
    let ghost all = lines.deep_view();
    let mut i: usize = 0;
    assert(was + lines_text(all.take(0)) =~= was);
    while i < lines.len()
        invariant
            all == lines.deep_view(),
            i <= all.len(),
            out@ == was + lines_text(all.take(i as int)),
        decreases lines.len() - i,
    {
        assert(all.take(i + 1).drop_last() =~= all.take(i as int));
        let ghost had = lines_text(all.take(i as int));
        out.append(lines[i].as_str());
        out.append("\n");
        assert(out@ =~= was + (had + all[i as int] + "\n"@));
        i = i + 1;
    }
    assert(all.take(i as int) =~= all);
}

/// The paths in the game of some modules, or the first fault.
pub open spec fn module_places(ms: Seq<ModuleView>, entries: Rows<Seq<Text>>) -> Result<
    Seq<Text>,
    MapFault,
>
    decreases ms.len(),
{
    if ms.len() == 0 {
        Ok(Seq::empty())
    } else {
        match module_places(ms.drop_last(), entries) {
            Ok(some) => match rojo::path_of(entries, ms.last().file) {
                Ok(path) => Ok(some.push(path)),
                Err(f) => Err(f),
            },
            Err(f) => Err(f),
        }
    }
}

/// The list of modules at these paths.
pub open spec fn list_text(places: Seq<Text>) -> Text {
    "--!strict\n\n"@ + lines_text(
        roots_of(places).map_values(|r: Text| emit::service_line(r, r)),
    ) + "\nreturn {\n"@ + lines_text(places.map_values(|p: Text| "\t"@ + p + ","@))
        + "} :: { ModuleScript }\n"@
}

/// The module list of a side, or the fault of the first module without a place.
pub open spec fn list_of(
    side: Side,
    ms: Seq<ModuleView>,
    sides: Rows<Side>,
    entries: Rows<Seq<Text>>,
) -> Result<Text, MapFault> {
    match module_places(visible(side, ms, sides), entries) {
        Ok(places) => Ok(list_text(places)),
        Err(f) => Err(f),
    }
}

proof fn lemma_module_places_stay(ms: Seq<ModuleView>, entries: Rows<Seq<Text>>, n: int)
    requires
        0 <= n <= ms.len(),
        module_places(ms.take(n), entries) is Err,
    ensures
        module_places(ms, entries) == module_places(ms.take(n), entries),
    decreases ms.len() - n,
{
    if n < ms.len() {
        assert(ms.take(n + 1).drop_last() =~= ms.take(n));
        lemma_module_places_stay(ms, entries, n + 1);
    } else {
        assert(ms.take(n) =~= ms);
    }
}

/// The paths in the game of some modules.
fn places_of_modules(modules: &Vec<&Module>, map: &RojoMap) -> (r: Result<Vec<String>, MapError>)
    ensures
        listed(r) == module_places(modules.deep_view(), map@),
{
    let ghost all = modules.deep_view();
    let mut out: Vec<String> = Vec::new();
    let mut i: usize = 0;
    assert(out.deep_view() =~= Seq::empty());
    while i < modules.len()
        invariant
            all == modules.deep_view(),
            i <= all.len(),
            module_places(all.take(i as int), map@) == Ok::<Seq<Text>, MapFault>(out.deep_view()),
        decreases modules.len() - i,
    {
        assert(all.take(i + 1).drop_last() =~= all.take(i as int));
        assert(all[i as int] == modules@[i as int].deep_view());
        match map.path(modules[i].file.as_str()) {
            Ok(path) => text::push(&mut out, path),
            Err(e) => {
                proof {
                    lemma_module_places_stay(all, map@, i + 1);
                }
                return Err(e);
            },
        }
        i = i + 1;
    }
    assert(all.take(i as int) =~= all);
    Ok(out)
}

/// The entries of a module list.
fn list_lines(places: &Vec<String>) -> (r: Vec<String>)
    ensures
        r.deep_view() == places.deep_view().map_values(|p: Text| "\t"@ + p + ","@),
{
    let ghost want = places.deep_view().map_values(|p: Text| "\t"@ + p + ","@);
    let mut out: Vec<String> = Vec::new();
    let mut i: usize = 0;
    while i < places.len()
        invariant
            want == places.deep_view().map_values(|p: Text| "\t"@ + p + ","@),
            i <= places@.len(),
            out.deep_view() =~= want.take(i as int),
        decreases places.len() - i,
    {
        let line = copy("\t").concat(places[i].as_str()).concat(",");
        assert(want[i as int] == line@);
        assert(want.take(i + 1) =~= want.take(i as int).push(line@));
        text::push(&mut out, line);
        i = i + 1;
    }
    assert(want.take(i as int) =~= want);
    out
}

/// The module list of a side: the paths of all the modules that it sees.
pub fn emit_module_list(
    side: Side,
    modules: &[Module],
    sides: &Table<Side>,
    map: &RojoMap,
) -> (r: Result<Option<String>, MapError>)
    requires
        covers(sides@, modules.deep_view()),
    ensures
        written(r) == Some(list_of(side, modules.deep_view(), sides@, map@)),
{
    let seen = seen_from(side, modules, sides);
    let places = match places_of_modules(&seen, map) {
        Ok(places) => places,
        Err(e) => {
            return Err(e);
        },
    };
    let mut out = copy("--!strict\n\n");
    append_lines(&mut out, &service_lines(&roots(&places)));
    out.append("\nreturn {\n");
    append_lines(&mut out, &list_lines(&places));
    out.append("} :: { ModuleScript }\n");
    Ok(Some(out))
}

/// What stands in the folder of the libraries under a name.
#[derive(Debug, Clone, Copy, PartialEq, Eq, Structural)]
pub enum Shelved {
    /// A file.
    File,
    /// A folder without an `init.luau`.
    Folder,
    /// A folder with an `init.luau`.
    Package,
}

impl DeepView for Shelved {
    type V = Shelved;

    open spec fn deep_view(&self) -> Shelved {
        *self
    }
}

/// The library that stands under a name: its own name, and its file.
pub open spec fn library(name: Text, what: Shelved) -> Option<(Text, Text)> {
    match what {
        Shelved::File => if ".luau"@.is_suffix_of(name) && name.len() > ".luau"@.len() {
            Some((name.take(name.len() - ".luau"@.len()), name))
        } else {
            None
        },
        Shelved::Folder => None,
        Shelved::Package => Some((name, paths::path_join(name, "init.luau"@))),
    }
}

/// The library that stands under a name.
fn library_at(name: &str, what: Shelved) -> (r: Option<(String, String)>)
    ensures
        r.deep_view() == library(name@, what),
{
    match what {
        Shelved::File => match text::strip_suffix(name, ".luau") {
            Some(stem) => if stem.as_str().is_empty() {
                None
            } else {
                Some((stem, copy(name)))
            },
            None => None,
        },
        Shelved::Folder => None,
        Shelved::Package => Some((copy(name), paths::join_path(name, "init.luau"))),
    }
}

/// What stands in a folder, in the order of the names.
pub open spec fn shelf(found: Seq<(Text, Shelved)>) -> Rows<Shelved>
    decreases found.len(),
{
    if found.len() == 0 {
        Seq::empty()
    } else {
        table::put(shelf(found.drop_last()), found.last().0, found.last().1)
    }
}

/// The names and the paths in the game of the libraries in a folder, or the
/// first fault.
pub open spec fn library_places(
    rows: Rows<Shelved>,
    root: Text,
    dir: Text,
    entries: Rows<Seq<Text>>,
) -> Result<(Seq<Text>, Seq<Text>), MapFault>
    decreases rows.len(),
{
    if rows.len() == 0 {
        Ok((Seq::empty(), Seq::empty()))
    } else {
        match library_places(rows.drop_last(), root, dir, entries) {
            Ok((names, places)) => match library(rows.last().0, rows.last().1) {
                Some((name, file)) => match rojo::path_of(
                    entries,
                    paths::relative(paths::path_join(paths::path_join(root, dir), file), root),
                ) {
                    Ok(place) => Ok((names.push(name), places.push(place))),
                    Err(f) => Err(f),
                },
                None => Ok((names, places)),
            },
            Err(f) => Err(f),
        }
    }
}

/// The file that lists the libraries with these names, at these paths.
pub open spec fn libs_text(names: Seq<Text>, places: Seq<Text>) -> Text {
    if names.len() == 0 {
        text::joined(
            seq!["--!strict\n"@, "export type Api = {}\n"@, "return {} :: Api\n"@],
            "\n"@,
        )
    } else {
        let types = names.map_values(|n: Text| "\t"@ + n + ": typeof("@ + n + "),"@);
        let values = names.map_values(|n: Text| "\t"@ + n + " = "@ + n + ","@);
        text::joined(
            seq![
                "--!strict\n"@,
                emit::block(requires_lines(names, places)),
                emit::block(seq!["export type Api = {"@] + types + seq!["}"@]),
                emit::block(seq!["return {"@] + values + seq!["} :: Api"@]),
            ],
            "\n"@,
        )
    }
}

/// The file that lists the libraries, or the fault of the first one without a
/// place.
pub open spec fn libs_of(
    root: Text,
    dir: Text,
    found: Seq<(Text, Shelved)>,
    entries: Rows<Seq<Text>>,
) -> Result<Text, MapFault> {
    match library_places(shelf(found), root, dir, entries) {
        Ok((names, places)) => Ok(libs_text(names, places)),
        Err(f) => Err(f),
    }
}

proof fn lemma_library_places_stay(
    rows: Rows<Shelved>,
    root: Text,
    dir: Text,
    entries: Rows<Seq<Text>>,
    n: int,
)
    requires
        0 <= n <= rows.len(),
        library_places(rows.take(n), root, dir, entries) is Err,
    ensures
        library_places(rows, root, dir, entries) == library_places(
            rows.take(n),
            root,
            dir,
            entries,
        ),
    decreases rows.len() - n,
{
    if n < rows.len() {
        assert(rows.take(n + 1).drop_last() =~= rows.take(n));
        lemma_library_places_stay(rows, root, dir, entries, n + 1);
    } else {
        assert(rows.take(n) =~= rows);
    }
}

/// Puts what stands in a folder in the order of the names.
fn arrange(found: &Vec<(String, Shelved)>) -> (r: Table<Shelved>)
    ensures
        r.wf(),
        r@ == shelf(found.deep_view()),
{
    let ghost all = found.deep_view();
    let mut out: Table<Shelved> = Table::new();
    let mut i: usize = 0;
    while i < found.len()
        invariant
            all == found.deep_view(),
            i <= all.len(),
            out.wf(),
            out@ == shelf(all.take(i as int)),
        decreases found.len() - i,
    {
        assert(all.take(i + 1).drop_last() =~= all.take(i as int));
        out.put(found[i].0.as_str(), found[i].1);
        i = i + 1;
    }
    assert(all.take(i as int) =~= all);
    out
}

/// Libraries, or the fault, as a value.
pub open spec fn found_libraries(r: Result<(Vec<String>, Vec<String>), MapError>) -> Result<
    (Seq<Text>, Seq<Text>),
    MapFault,
> {
    match r {
        Ok((names, places)) => Ok((names.deep_view(), places.deep_view())),
        Err(e) => Err(e.deep_view()),
    }
}

/// The names and the paths in the game of the libraries in a folder.
fn places_of_libraries(
    rows: &Table<Shelved>,
    root: &str,
    dir: &str,
    map: &RojoMap,
) -> (r: Result<(Vec<String>, Vec<String>), MapError>)
    ensures
        found_libraries(r) == library_places(rows@, root@, dir@, map@),
        r matches Ok((names, places)) ==> names@.len() == places@.len(),
{
    let ghost all = rows@;
    let base = paths::join_path(root, dir);
    let mut names: Vec<String> = Vec::new();
    let mut places: Vec<String> = Vec::new();
    let n: usize = rows.len();
    let mut i: usize = 0;
    assert(names.deep_view() =~= Seq::empty());
    assert(places.deep_view() =~= Seq::empty());
    while i < n
        invariant
            all == rows@,
            i <= n == all.len(),
            base@ == paths::path_join(root@, dir@),
            names.deep_view().len() == places.deep_view().len(),
            library_places(all.take(i as int), root@, dir@, map@) == Ok::<
                (Seq<Text>, Seq<Text>),
                MapFault,
            >((names.deep_view(), places.deep_view())),
        decreases n - i,
    {
        assert(all.take(i + 1).drop_last() =~= all.take(i as int));
        if let Some((name, file)) = library_at(rows.key(i).as_str(), *rows.value(i)) {
            let target = paths::join_path(base.as_str(), file.as_str());
            match map.path(paths::strip_base(target.as_str(), root).as_str()) {
                Ok(place) => {
                    text::push(&mut names, name);
                    text::push(&mut places, place);
                },
                Err(e) => {
                    proof {
                        lemma_library_places_stay(all, root@, dir@, map@, i + 1);
                    }
                    return Err(e);
                },
            }
        }
        i = i + 1;
    }
    assert(all.take(i as int) =~= all);
    Ok((names, places))
}

/// A block of one line for each name, between two lines.
fn lib_block(names: &Vec<String>, types: bool) -> (r: String)
    ensures
        types ==> r@ == emit::block(
            seq!["export type Api = {"@] + names.deep_view().map_values(
                |n: Text| "\t"@ + n + ": typeof("@ + n + "),"@,
            ) + seq!["}"@],
        ),
        !types ==> r@ == emit::block(
            seq!["return {"@] + names.deep_view().map_values(
                |n: Text| "\t"@ + n + " = "@ + n + ","@,
            ) + seq!["} :: Api"@],
        ),
{
    let ghost typed = names.deep_view().map_values(|n: Text| "\t"@ + n + ": typeof("@ + n + "),"@);
    let ghost valued = names.deep_view().map_values(|n: Text| "\t"@ + n + " = "@ + n + ","@);
    let ghost want = if types {
        typed
    } else {
        valued
    };
    let open = copy(
        if types {
            "export type Api = {"
        } else {
            "return {"
        },
    );
    let ghost first = seq![open@];
    let mut out: Vec<String> = Vec::new();
    text::push(&mut out, open);
    let mut i: usize = 0;
    assert(out.deep_view() =~= first + want.take(0));
    while i < names.len()
        invariant
            i <= names@.len(),
            typed == names.deep_view().map_values(
                |n: Text| "\t"@ + n + ": typeof("@ + n + "),"@,
            ),
            valued == names.deep_view().map_values(|n: Text| "\t"@ + n + " = "@ + n + ","@),
            want == if types {
                typed
            } else {
                valued
            },
            out.deep_view() == first + want.take(i as int),
        decreases names.len() - i,
    {
        let name = names[i].as_str();
        let line = if types {
            copy("\t").concat(name).concat(": typeof(").concat(name).concat("),")
        } else {
            copy("\t").concat(name).concat(" = ").concat(name).concat(",")
        };
        assert(want[i as int] == line@);
        assert((first + want.take(i as int)).push(line@) =~= first + want.take(i + 1));
        text::push(&mut out, line);
        i = i + 1;
    }
    assert(want.take(i as int) =~= want);
    let close = copy(
        if types {
            "}"
        } else {
            "} :: Api"
        },
    );
    let ghost last = seq![close@];
    text::push(&mut out, close);
    assert(out.deep_view() =~= first + want + last);
    block_of(&out)
}

/// The file that lists what stands in the folder of the libraries.
///
/// A library takes part as it is: its type is whatever its file returns.
pub fn emit_libs(
    root: &str,
    dir: &str,
    found: &Vec<(String, Shelved)>,
    map: &RojoMap,
) -> (r: Result<String, MapError>)
    ensures
        rojo::located(r) == libs_of(root@, dir@, found.deep_view(), map@),
{
    let rows = arrange(found);
    let (names, places) = match places_of_libraries(&rows, root, dir, map) {
        Ok(pair) => pair,
        Err(e) => {
            return Err(e);
        },
    };
    let mut blocks: Vec<String> = Vec::new();
    text::push(&mut blocks, copy("--!strict\n"));
    if names.len() == 0 {
        text::push(&mut blocks, copy("export type Api = {}\n"));
        text::push(&mut blocks, copy("return {} :: Api\n"));
        assert(blocks.deep_view() =~= seq![
            "--!strict\n"@,
            "export type Api = {}\n"@,
            "return {} :: Api\n"@,
        ]);
        return Ok(text::join(&blocks, "\n"));
    }
    text::push(&mut blocks, block_of(&lines_of_requires(&names, &places)));
    text::push(&mut blocks, lib_block(&names, true));
    text::push(&mut blocks, lib_block(&names, false));
    let ghost n = names.deep_view();
    let ghost types = n.map_values(|n: Text| "\t"@ + n + ": typeof("@ + n + "),"@);
    let ghost values = n.map_values(|n: Text| "\t"@ + n + " = "@ + n + ","@);
    assert(blocks.deep_view() =~= seq![
        "--!strict\n"@,
        emit::block(requires_lines(n, places.deep_view())),
        emit::block(seq!["export type Api = {"@] + types + seq!["}"@]),
        emit::block(seq!["return {"@] + values + seq!["} :: Api"@]),
    ]);
    Ok(text::join(&blocks, "\n"))
}

/// A side's Manifest and module list are about the modules of that side and
/// those that are shared, and about no others.
pub proof fn law_visible(side: Side, ms: Seq<ModuleView>, sides: Rows<Side>, m: ModuleView)
    ensures
        visible(side, ms, sides).contains(m) <==> ms.contains(m) && (table::get(sides, m.id)->0
            == Side::Shared || table::get(sides, m.id)->0 == side),
    decreases ms.len(),
{
    if ms.len() > 0 {
        let rest = ms.drop_last();
        law_visible(side, rest, sides, m);
        let some = visible(side, rest, sides);
        let all = visible(side, ms, sides);
        if all.contains(m) {
            let i = choose|i: int| 0 <= i < all.len() && all[i] == m;
            if i < some.len() {
                assert(some[i] == m);
                assert(some.contains(m));
                let k = choose|k: int| 0 <= k < rest.len() && rest[k] == m;
                assert(ms[k] == m);
            } else {
                assert(ms[ms.len() - 1] == m);
            }
        }
        if ms.contains(m) && side.reaches(table::get(sides, m.id)->0) {
            let k = choose|k: int| 0 <= k < ms.len() && ms[k] == m;
            if k < rest.len() {
                assert(rest[k] == m);
                assert(some.contains(m));
                let i = choose|i: int| 0 <= i < some.len() && some[i] == m;
                assert(all[i] == m);
            } else {
                assert(all[all.len() - 1] == m);
            }
        }
    }
}

/// What paths begin with is declared before it is used: for every path there is
/// the service that it begins with, and for every name its require.
pub proof fn law_requires_are_declared(names: Seq<Text>, places: Seq<Text>, i: int)
    requires
        names.len() == places.len(),
        0 <= i < places.len(),
        text::head_of(places[i], '.').len() > 0,
    ensures
        requires_lines(names, places).contains(
            emit::service_line(text::head_of(places[i], '.'), text::head_of(places[i], '.')),
        ),
        requires_lines(names, places).contains(emit::require_line(names[i], places[i])),
{
    let root = text::head_of(places[i], '.');
    lemma_roots(places);
    let roots = roots_of(places);
    assert(roots.contains(root));
    let k = choose|k: int| 0 <= k < roots.len() && roots[k] == root;
    let lines = requires_lines(names, places);
    assert(lines[k] == emit::service_line(root, root));
    assert(lines[roots.len() + i] == emit::require_line(names[i], places[i]));
}

pub proof fn lemma_roots(places: Seq<Text>)
    ensures
        table::in_order(roots_of(places)),
        forall|i: int|
            0 <= i < places.len() && text::head_of(#[trigger] places[i], '.').len() > 0
                ==> roots_of(places).contains(text::head_of(places[i], '.')),
    decreases places.len(),
{
    if places.len() > 0 {
        let rest = places.drop_last();
        lemma_roots(rest);
        let root = text::head_of(places.last(), '.');
        if root.len() > 0 {
            table::law_with_text(roots_of(rest), root);
        }
        assert forall|i: int|
            0 <= i < places.len() && text::head_of(#[trigger] places[i], '.').len()
                > 0 implies roots_of(places).contains(text::head_of(places[i], '.')) by {
            if i < rest.len() {
                assert(rest[i] == places[i]);
                assert(roots_of(rest).contains(text::head_of(rest[i], '.')));
            }
        }
    }
}

pub proof fn lemma_no_duplicate(ms: Seq<ModuleView>)
    requires
        duplicate_in(ms) is None,
    ensures
        forall|i: int, j: int|
            #![trigger ms[i], ms[j]]
            0 <= i < j < ms.len() ==> ms[i].id != ms[j].id,
    decreases ms.len(),
{
    if ms.len() > 0 {
        let rest = ms.drop_last();
        lemma_no_duplicate(rest);
        lemma_with_id(rest, ms.last().id);
        assert forall|i: int, j: int|
            #![trigger ms[i], ms[j]]
            0 <= i < j < ms.len() implies ms[i].id != ms[j].id by {
            assert(rest[i] == ms[i]);
            if j < rest.len() {
                assert(rest[j] == ms[j]);
            }
        }
    }
}

pub proof fn lemma_deps_fine(
    m: ModuleView,
    deps: Seq<Text>,
    ms: Seq<ModuleView>,
    sides: Rows<Side>,
    k: int,
)
    requires
        deps_fault(m, deps, ms, sides) is None,
        0 <= k < deps.len(),
    ensures
        dep_fault(m, deps[k], ms, sides) is None,
    decreases deps.len(),
{
    if k < deps.len() - 1 {
        lemma_deps_fine(m, deps.drop_last(), ms, sides, k);
    }
}

pub proof fn lemma_requires_fine(ms: Seq<ModuleView>, n: int, sides: Rows<Side>, i: int)
    requires
        requires_fault(ms, n, sides) is None,
        0 <= i < n,
    ensures
        deps_fault(ms[i], ms[i].declared_require, ms, sides) is None,
    decreases n,
{
    if i < n - 1 {
        lemma_requires_fine(ms, n - 1, sides, i);
    }
}

/// In modules that go together no two have the same id.
pub proof fn law_ids_are_unique(ms: Seq<ModuleView>, entries: Rows<Seq<Text>>)
    requires
        validated(ms, entries) is Ok,
    ensures
        forall|a: int, b: int|
            #![trigger ms[a], ms[b]]
            0 <= a < b < ms.len() ==> ms[a].id != ms[b].id,
{
    lemma_no_duplicate(ms);
}

/// In modules that go together whatever one of them requires is one of them, and
/// one that its side can see.
pub proof fn law_requires_are_seen(ms: Seq<ModuleView>, entries: Rows<Seq<Text>>, i: int, k: int)
    requires
        validated(ms, entries) is Ok,
        0 <= i < ms.len(),
        0 <= k < ms[i].declared_require.len(),
    ensures
        ids_of(ms).contains(ms[i].declared_require[k]),
        table::get(validated(ms, entries)->Ok_0, ms[i].id)->0.reaches(
            table::get(validated(ms, entries)->Ok_0, ms[i].declared_require[k])->0,
        ),
{
    let sides = validated(ms, entries)->Ok_0;
    let dep = ms[i].declared_require[k];
    lemma_requires_fine(ms, ms.len() as int, sides, i);
    lemma_deps_fine(ms[i], ms[i].declared_require, ms, sides, k);
    lemma_with_id(ms, dep);
    let m = with_id(ms, dep)->0;
    let j = choose|j: int| 0 <= j < ms.len() && ms[j] == m;
    assert(ids_of(ms)[j] == dep);
}

/// In modules that go together each has the side of its file.
pub proof fn law_sides(ms: Seq<ModuleView>, entries: Rows<Seq<Text>>, i: int)
    requires
        validated(ms, entries) is Ok,
        0 <= i < ms.len(),
    ensures
        rojo::side_at(entries, ms[i].file) is Ok,
        table::get(validated(ms, entries)->Ok_0, ms[i].id) == Some(
            rojo::side_at(entries, ms[i].file)->Ok_0,
        ),
{
    lemma_no_duplicate(ms);
    lemma_side(ms, entries, i);
}

pub proof fn lemma_side(ms: Seq<ModuleView>, entries: Rows<Seq<Text>>, i: int)
    requires
        sides_of(ms, entries) is Ok,
        0 <= i < ms.len(),
        forall|a: int, b: int|
            #![trigger ms[a], ms[b]]
            0 <= a < b < ms.len() ==> ms[a].id != ms[b].id,
    ensures
        rojo::side_at(entries, ms[i].file) is Ok,
        table::get(sides_of(ms, entries)->Ok_0, ms[i].id) == Some(
            rojo::side_at(entries, ms[i].file)->Ok_0,
        ),
    decreases ms.len(),
{
    let rest = ms.drop_last();
    let rows = sides_of(rest, entries)->Ok_0;
    let last = ms.last();
    lemma_sides(rest, entries);
    table::law_get_put(rows, last.id, rojo::side_at(entries, last.file)->Ok_0, ms[i].id);
    if i < rest.len() {
        assert(ms[i].id != ms[ms.len() - 1].id);
        assert forall|a: int, b: int|
            #![trigger rest[a], rest[b]]
            0 <= a < b < rest.len() implies rest[a].id != rest[b].id by {
            assert(ms[a].id != ms[b].id);
        }
        lemma_side(rest, entries, i);
    }
}

/// The type of a kind has the modules of that kind, and no others.
pub proof fn law_of_kind(ms: Seq<ModuleView>, kind: Text, m: ModuleView)
    ensures
        of_kind(ms, kind).contains(m) <==> ms.contains(m) && m.kind == kind,
    decreases ms.len(),
{
    if ms.len() > 0 {
        let rest = ms.drop_last();
        law_of_kind(rest, kind, m);
        let some = of_kind(rest, kind);
        let all = of_kind(ms, kind);
        if all.contains(m) {
            let i = choose|i: int| 0 <= i < all.len() && all[i] == m;
            if i < some.len() {
                assert(some[i] == m);
                assert(some.contains(m));
                let k = choose|k: int| 0 <= k < rest.len() && rest[k] == m;
                assert(ms[k] == m);
            } else {
                assert(ms[ms.len() - 1] == m);
            }
        }
        if ms.contains(m) && m.kind == kind {
            let k = choose|k: int| 0 <= k < ms.len() && ms[k] == m;
            if k < rest.len() {
                assert(rest[k] == m);
                assert(some.contains(m));
                let i = choose|i: int| 0 <= i < some.len() && some[i] == m;
                assert(all[i] == m);
            } else {
                assert(all[all.len() - 1] == m);
            }
        }
    }
}

/// A module list has the path of every module that its side sees, in order.
pub proof fn law_module_places(ms: Seq<ModuleView>, entries: Rows<Seq<Text>>, i: int)
    requires
        module_places(ms, entries) is Ok,
        0 <= i < ms.len(),
    ensures
        module_places(ms, entries)->Ok_0.len() == ms.len(),
        rojo::path_of(entries, ms[i].file) == Ok::<Text, MapFault>(
            module_places(ms, entries)->Ok_0[i],
        ),
    decreases ms.len(),
{
    let rest = ms.drop_last();
    if i < rest.len() {
        law_module_places(rest, entries, i);
    } else if rest.len() > 0 {
        law_module_places(rest, entries, 0);
    }
}

/// A Manifest requires the leaf of every module that its side sees, in order.
pub proof fn law_leaf_places(
    ms: Seq<ModuleView>,
    sides: Rows<Side>,
    entries: Rows<Seq<Text>>,
    layout: LayoutView,
    i: int,
)
    requires
        leaf_places(ms, sides, entries, layout) is Ok,
        0 <= i < ms.len(),
    ensures
        leaf_places(ms, sides, entries, layout)->Ok_0.len() == ms.len(),
        rojo::path_of(entries, leaf_file(layout, sides, ms[i].id)) == Ok::<Text, MapFault>(
            leaf_places(ms, sides, entries, layout)->Ok_0[i],
        ),
    decreases ms.len(),
{
    let rest = ms.drop_last();
    lemma_places_len(rest, sides, entries, layout);
    if i < rest.len() {
        law_leaf_places(rest, sides, entries, layout, i);
    }
}

/// The libraries that are listed are those that stand in the folder, and no
/// others: one that is taken out of the folder is gone from the list.
pub proof fn law_libraries(
    rows: Rows<Shelved>,
    root: Text,
    dir: Text,
    entries: Rows<Seq<Text>>,
    name: Text,
)
    requires
        library_places(rows, root, dir, entries) is Ok,
    ensures
        library_places(rows, root, dir, entries)->Ok_0.0.contains(name) <==> exists|i: int|
            0 <= i < rows.len() && (library((#[trigger] rows[i]).0, rows[i].1) matches Some(l)
                && l.0 == name),
    decreases rows.len(),
{
    if rows.len() > 0 {
        let rest = rows.drop_last();
        law_libraries(rest, root, dir, entries, name);
        let some = library_places(rest, root, dir, entries)->Ok_0.0;
        let all = library_places(rows, root, dir, entries)->Ok_0.0;
        let last = rows.last();
        assert(rows[rows.len() - 1] == last);
        if all.contains(name) {
            let i = choose|i: int| 0 <= i < all.len() && all[i] == name;
            if i < some.len() {
                assert(some[i] == name);
                assert(some.contains(name));
                let k = choose|k: int|
                    0 <= k < rest.len() && (library((#[trigger] rest[k]).0, rest[k].1) matches Some(
                        l,
                    ) && l.0 == name);
                assert(rows[k] == rest[k]);
            }
        }
        if exists|i: int|
            0 <= i < rows.len() && (library((#[trigger] rows[i]).0, rows[i].1) matches Some(l)
                && l.0 == name) {
            let k = choose|k: int|
                0 <= k < rows.len() && (library((#[trigger] rows[k]).0, rows[k].1) matches Some(l)
                    && l.0 == name);
            if k < rest.len() {
                assert(rest[k] == rows[k]);
                assert(some.contains(name));
                let i = choose|i: int| 0 <= i < some.len() && some[i] == name;
                assert(all[i] == name);
            } else {
                assert(all[all.len() - 1] == name);
            }
        }
    }
}

pub proof fn lemma_with_leaf(ms: Seq<ModuleView>, sides: Rows<Side>, place: Seq<paths::PartView>, i: int)
    requires
        with_leaf(ms, sides, place) is None,
        0 <= i < ms.len(),
    ensures
        paths::parts(leaf_name(sides, ms[i].id)) != place,
    decreases ms.len(),
{
    if i < ms.len() - 1 {
        lemma_with_leaf(ms.drop_last(), sides, place, i);
    }
}

pub proof fn lemma_no_same_leaf(ms: Seq<ModuleView>, sides: Rows<Side>, i: int, j: int)
    requires
        same_leaf_in(ms, sides) is None,
        0 <= i < j < ms.len(),
    ensures
        paths::parts(leaf_name(sides, ms[i].id)) != paths::parts(leaf_name(sides, ms[j].id)),
    decreases ms.len(),
{
    let rest = ms.drop_last();
    if j < rest.len() {
        lemma_no_same_leaf(rest, sides, i, j);
    } else {
        lemma_with_leaf(rest, sides, paths::parts(leaf_name(sides, ms.last().id)), i);
    }
}

/// In modules that go together no two leaves are in the same place, with a
/// project file and with a sourcemap. (An id that is itself a path from the root
/// says where the leaf goes, whatever the side and the source.)
pub proof fn law_leaves_never_collide(
    ms: Seq<ModuleView>,
    entries: Rows<Seq<Text>>,
    source: Text,
    rogen: bool,
    i: int,
    j: int,
)
    requires
        validated(ms, entries) is Ok,
        0 <= i < j < ms.len(),
        ms[i].id.len() > 0 ==> ms[i].id[0] != '/',
        ms[j].id.len() > 0 ==> ms[j].id[0] != '/',
    ensures
        ({
            let at = if rogen {
                layout::rogen_layout(source)
            } else {
                layout::mirror_layout(source)
            };
            let sides = validated(ms, entries)->Ok_0;
            paths::parts(leaf_file(at, sides, ms[i].id)) != paths::parts(
                leaf_file(at, sides, ms[j].id),
            )
        }),
{
    reveal_strlit(".luau");
    reveal_strlit("ModuxTypes/");
    let sides = validated(ms, entries)->Ok_0;
    let a = table::get(sides, ms[i].id)->0;
    let b = table::get(sides, ms[j].id)->0;
    let x = ms[i].id + ".luau"@;
    let y = ms[j].id + ".luau"@;
    lemma_no_same_leaf(ms, sides, i, j);
    layout::lemma_dir(source, rogen, a);
    layout::lemma_dir(source, rogen, b);
    if a != b {
        layout::lemma_dirs_apart(source, rogen, a, b, x, y);
    } else {
        let dirs = if rogen {
            layout::rogen_layout(source).types_dirs
        } else {
            layout::mirror_layout(source).types_dirs
        };
        let dir = layout::types_dir_of(dirs, a)->0;
        let all = "ModuxTypes/"@ + rojo::side_name(a);
        let tx = paths::tail_parts(text::split(x, '/'));
        let ty = paths::tail_parts(text::split(y, '/'));
        paths::law_join(dir, x);
        paths::law_join(dir, y);
        paths::law_join(all, x);
        paths::law_join(all, y);
        let d = paths::parts(dir);
        if d + tx == d + ty {
            assert(tx =~= (d + tx).skip(d.len() as int));
            assert(ty =~= (d + ty).skip(d.len() as int));
        }
    }
}

/// Modules with different ids have no duplicate.
pub proof fn lemma_is_no_duplicate(ms: Seq<ModuleView>)
    requires
        forall|i: int, j: int|
            #![trigger ms[i], ms[j]]
            0 <= i < j < ms.len() ==> ms[i].id != ms[j].id,
    ensures
        duplicate_in(ms) is None,
    decreases ms.len(),
{
    if ms.len() > 0 {
        let rest = ms.drop_last();
        assert forall|i: int, j: int|
            #![trigger rest[i], rest[j]]
            0 <= i < j < rest.len() implies rest[i].id != rest[j].id by {
            assert(ms[i].id != ms[j].id);
        }
        lemma_is_no_duplicate(rest);
        lemma_with_id(rest, ms.last().id);
        if let Some(m) = with_id(rest, ms.last().id) {
            let i = choose|i: int| 0 <= i < rest.len() && rest[i] == m;
            assert(ms[i].id != ms[ms.len() - 1].id);
        }
    }
}

/// Modules whose files have a place have sides.
pub proof fn lemma_has_sides(ms: Seq<ModuleView>, entries: Rows<Seq<Text>>)
    requires
        forall|i: int| 0 <= i < ms.len() ==> rojo::side_at(entries, (#[trigger] ms[i]).file) is Ok,
    ensures
        sides_of(ms, entries) is Ok,
    decreases ms.len(),
{
    if ms.len() > 0 {
        let rest = ms.drop_last();
        assert forall|i: int| 0 <= i < rest.len() implies rojo::side_at(
            entries,
            (#[trigger] rest[i]).file,
        ) is Ok by {
            assert(rojo::side_at(entries, ms[i].file) is Ok);
        }
        lemma_has_sides(rest, entries);
        assert(rojo::side_at(entries, ms[ms.len() - 1].file) is Ok);
    }
}

/// An id that no module has has no side.
pub proof fn lemma_no_side(ms: Seq<ModuleView>, entries: Rows<Seq<Text>>, id: Text)
    requires
        sides_of(ms, entries) is Ok,
        forall|i: int| 0 <= i < ms.len() ==> (#[trigger] ms[i]).id != id,
    ensures
        table::get(sides_of(ms, entries)->Ok_0, id) is None,
    decreases ms.len(),
{
    if ms.len() > 0 {
        let rest = ms.drop_last();
        assert forall|i: int| 0 <= i < rest.len() implies (#[trigger] rest[i]).id != id by {
            assert(ms[i].id != id);
        }
        lemma_no_side(rest, entries, id);
        lemma_sides(rest, entries);
        assert(ms[ms.len() - 1].id != id);
        table::law_get_put(
            sides_of(rest, entries)->Ok_0,
            ms.last().id,
            rojo::side_at(entries, ms.last().file)->Ok_0,
            id,
        );
    }
}

/// Modules with leaves in different places have no leaf that two have.
pub proof fn lemma_is_no_same_leaf(ms: Seq<ModuleView>, sides: Rows<Side>)
    requires
        forall|i: int, j: int|
            #![trigger ms[i], ms[j]]
            0 <= i < j < ms.len() ==> paths::parts(leaf_name(sides, ms[i].id)) != paths::parts(
                leaf_name(sides, ms[j].id),
            ),
    ensures
        same_leaf_in(ms, sides) is None,
    decreases ms.len(),
{
    if ms.len() > 0 {
        let rest = ms.drop_last();
        assert forall|i: int, j: int|
            #![trigger rest[i], rest[j]]
            0 <= i < j < rest.len() implies paths::parts(leaf_name(sides, rest[i].id))
            != paths::parts(leaf_name(sides, rest[j].id)) by {
            assert(ms[i] == rest[i] && ms[j] == rest[j]);
        }
        lemma_is_no_same_leaf(rest, sides);
        let place = paths::parts(leaf_name(sides, ms.last().id));
        assert forall|i: int| 0 <= i < rest.len() implies paths::parts(
            leaf_name(sides, (#[trigger] rest[i]).id),
        ) != place by {
            assert(ms[i] == rest[i] && ms[ms.len() - 1] == ms.last());
        }
        lemma_no_leaf_at(rest, sides, place);
    }
}

/// A place where no module's leaf is is found for none.
pub proof fn lemma_no_leaf_at(ms: Seq<ModuleView>, sides: Rows<Side>, place: Seq<paths::PartView>)
    requires
        forall|i: int|
            0 <= i < ms.len() ==> paths::parts(leaf_name(sides, (#[trigger] ms[i]).id)) != place,
    ensures
        with_leaf(ms, sides, place) is None,
    decreases ms.len(),
{
    if ms.len() > 0 {
        let rest = ms.drop_last();
        assert forall|i: int| 0 <= i < rest.len() implies paths::parts(
            leaf_name(sides, (#[trigger] rest[i]).id),
        ) != place by {
            assert(ms[i] == rest[i]);
        }
        lemma_no_leaf_at(rest, sides, place);
        assert(ms[ms.len() - 1] == ms.last());
    }
}

pub proof fn lemma_is_deps_fine(
    m: ModuleView,
    deps: Seq<Text>,
    ms: Seq<ModuleView>,
    sides: Rows<Side>,
)
    requires
        forall|k: int| 0 <= k < deps.len() ==> dep_fault(m, #[trigger] deps[k], ms, sides) is None,
    ensures
        deps_fault(m, deps, ms, sides) is None,
    decreases deps.len(),
{
    if deps.len() > 0 {
        let rest = deps.drop_last();
        assert forall|k: int| 0 <= k < rest.len() implies dep_fault(
            m,
            #[trigger] rest[k],
            ms,
            sides,
        ) is None by {
            assert(dep_fault(m, deps[k], ms, sides) is None);
        }
        lemma_is_deps_fine(m, rest, ms, sides);
        assert(dep_fault(m, deps[deps.len() - 1], ms, sides) is None);
    }
}

pub proof fn lemma_is_requires_fine(ms: Seq<ModuleView>, n: int, sides: Rows<Side>)
    requires
        n <= ms.len(),
        forall|i: int|
            0 <= i < ms.len() ==> deps_fault(
                #[trigger] ms[i],
                ms[i].declared_require,
                ms,
                sides,
            ) is None,
    ensures
        requires_fault(ms, n, sides) is None,
    decreases n,
{
    if n > 0 {
        lemma_is_requires_fine(ms, n - 1, sides);
        assert(deps_fault(ms[n - 1], ms[n - 1].declared_require, ms, sides) is None);
    }
}

/// In another order modules with different ids still have different ids.
proof fn lemma_ids_in_another_order(a: Seq<ModuleView>, b: Seq<ModuleView>)
    requires
        a.to_multiset() == b.to_multiset(),
        forall|i: int, j: int|
            #![trigger a[i], a[j]]
            0 <= i < j < a.len() ==> a[i].id != a[j].id,
    ensures
        forall|m: ModuleView| #[trigger] a.contains(m) <==> b.contains(m),
        forall|i: int, j: int|
            #![trigger b[i], b[j]]
            0 <= i < j < b.len() ==> b[i].id != b[j].id,
{
    broadcast use vstd::seq_lib::group_seq_properties;

    assert forall|m: ModuleView| #[trigger] a.contains(m) <==> b.contains(m) by {
        assert(a.contains(m) <==> a.to_multiset().count(m) > 0);
        assert(b.contains(m) <==> b.to_multiset().count(m) > 0);
    }
    assert(a.no_duplicates());
    a.lemma_multiset_has_no_duplicates();
    b.lemma_multiset_has_no_duplicates_conv();
    assert forall|i: int, j: int|
        #![trigger b[i], b[j]]
        0 <= i < j < b.len() implies b[i].id != b[j].id by {
        assert(b.contains(b[i]) && b.contains(b[j]));
        assert(a.contains(b[i]) && a.contains(b[j]));
        let p = choose|p: int| 0 <= p < a.len() && a[p] == b[i];
        let q = choose|q: int| 0 <= q < a.len() && a[q] == b[j];
        assert(b[i] != b[j]);
        if p < q {
            assert(a[p].id != a[q].id);
        } else {
            assert(a[q].id != a[p].id);
        }
    }
}

/// Modules that go together in one order do in another, with the same sides.
proof fn lemma_another_order(a: Seq<ModuleView>, b: Seq<ModuleView>, entries: Rows<Seq<Text>>)
    requires
        a.to_multiset() == b.to_multiset(),
        validated(a, entries) is Ok,
    ensures
        validated(b, entries) == validated(a, entries),
{
    let sides = validated(a, entries)->Ok_0;
    lemma_no_duplicate(a);
    lemma_ids_in_another_order(a, b);
    lemma_is_no_duplicate(b);
    assert forall|i: int| 0 <= i < b.len() implies rojo::side_at(
        entries,
        (#[trigger] b[i]).file,
    ) is Ok by {
        assert(b.contains(b[i]));
        assert(a.contains(b[i]));
        let p = choose|p: int| 0 <= p < a.len() && a[p] == b[i];
        lemma_side(a, entries, p);
    }
    lemma_has_sides(b, entries);
    lemma_sides(a, entries);
    lemma_sides(b, entries);
    let others = sides_of(b, entries)->Ok_0;
    assert forall|id: Text| #[trigger] table::get(sides, id) == table::get(others, id) by {
        if exists|p: int| 0 <= p < a.len() && (#[trigger] a[p]).id == id {
            let p = choose|p: int| 0 <= p < a.len() && (#[trigger] a[p]).id == id;
            assert(a.contains(a[p]));
            assert(b.contains(a[p]));
            let q = choose|q: int| 0 <= q < b.len() && b[q] == a[p];
            lemma_side(a, entries, p);
            lemma_side(b, entries, q);
        } else {
            lemma_no_side(a, entries, id);
            assert forall|q: int| 0 <= q < b.len() implies (#[trigger] b[q]).id != id by {
                assert(b.contains(b[q]));
                assert(a.contains(b[q]));
                let p = choose|p: int| 0 <= p < a.len() && a[p] == b[q];
                assert(a[p].id == b[q].id);
            }
            lemma_no_side(b, entries, id);
        }
    }
    table::law_same_rows(sides, others);
    assert forall|i: int, j: int|
        #![trigger b[i], b[j]]
        0 <= i < j < b.len() implies paths::parts(leaf_name(sides, b[i].id)) != paths::parts(
        leaf_name(sides, b[j].id),
    ) by {
        assert(b.contains(b[i]) && b.contains(b[j]));
        assert(a.contains(b[i]) && a.contains(b[j]));
        let p = choose|p: int| 0 <= p < a.len() && a[p] == b[i];
        let q = choose|q: int| 0 <= q < a.len() && a[q] == b[j];
        assert(b[i].id != b[j].id);
        if p < q {
            lemma_no_same_leaf(a, sides, p, q);
        } else {
            lemma_no_same_leaf(a, sides, q, p);
        }
    }
    lemma_is_no_same_leaf(b, sides);
    assert forall|i: int| 0 <= i < b.len() implies deps_fault(
        #[trigger] b[i],
        b[i].declared_require,
        b,
        sides,
    ) is None by {
        assert(b.contains(b[i]));
        assert(a.contains(b[i]));
        let p = choose|p: int| 0 <= p < a.len() && a[p] == b[i];
        lemma_requires_fine(a, a.len() as int, sides, p);
        let deps = b[i].declared_require;
        assert forall|k: int| 0 <= k < deps.len() implies dep_fault(
            b[i],
            #[trigger] deps[k],
            b,
            sides,
        ) is None by {
            lemma_deps_fine(a[p], deps, a, sides, k);
            lemma_with_id(a, deps[k]);
            lemma_with_id(b, deps[k]);
            let target = with_id(a, deps[k])->0;
            assert(a.contains(target));
            assert(b.contains(target));
            let q = choose|q: int| 0 <= q < b.len() && b[q] == target;
            assert(b[q].id == deps[k]);
        }
        lemma_is_deps_fine(b[i], deps, b, sides);
    }
    lemma_is_requires_fine(b, b.len() as int, sides);
}

/// Whether modules go together, and the sides that they get, do not depend on
/// the order in which they come.
pub proof fn law_order_does_not_matter(
    a: Seq<ModuleView>,
    b: Seq<ModuleView>,
    entries: Rows<Seq<Text>>,
)
    requires
        a.to_multiset() == b.to_multiset(),
    ensures
        validated(a, entries) is Ok <==> validated(b, entries) is Ok,
        validated(a, entries) is Ok ==> validated(a, entries) == validated(b, entries),
{
    if validated(a, entries) is Ok {
        lemma_another_order(a, b, entries);
    }
    if validated(b, entries) is Ok {
        lemma_another_order(b, a, entries);
    }
}

} // verus!
