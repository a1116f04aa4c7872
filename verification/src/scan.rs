//! Which files are modules, and which of them live alone in a folder.

use vstd::prelude::*;

use crate::paths::{self, join_path};
use crate::rojo;
use crate::text::{self, chars_of, copy, same, Text};

verus! {

/// What stands from `i` on, past white space, opens a call with a string.
pub open spec fn opens_call(s: Text, i: int) -> bool {
    let rest = text::trim_start(s.skip(i));
    if rest.len() > 0 && rest[0] == '(' {
        let inside = text::trim_start(rest.drop_first());
        inside.len() > 0 && (inside[0] == '"' || inside[0] == '\'')
    } else {
        false
    }
}

/// `target("..")` stands in a text, with white space anywhere.
pub open spec fn calls(s: Text, target: Text) -> bool {
    exists|i: int| #[trigger]
        text::occurs_at(s, target, i) && opens_call(s, i + target.len())
}

/// A text makes a module: it calls one of the constructors with a string.
pub open spec fn makes_module(s: Text) -> bool {
    calls(s, ".Controller"@) || calls(s, ".Service"@) || calls(s, ".Component"@)
}

/// Whether what stands from `i` on opens a call with a string.
fn call_opens(v: &Vec<char>, i: usize) -> (r: bool)
    requires
        i <= v@.len(),
    ensures
        r == opens_call(v@, i as int),
{
    let at = text::skip_white(v, i);
    if at < v.len() && v[at] == '(' {
        let inside = text::skip_white(v, at + 1);
        assert(v@.skip(at as int).drop_first() =~= v@.skip(at + 1));
        inside < v.len() && (v[inside] == '"' || v[inside] == '\'')
    } else {
        false
    }
}

/// Whether `target("..")` stands in a text.
fn has_call_of(v: &Vec<char>, target: &str) -> (r: bool)
    requires
        target@.len() > 0,
    ensures
        r == calls(v@, target@),
{
    let p = chars_of(target);
    let n: usize = v.len();
    let mut i: usize = 0;
    while i <= n
        invariant
            n == v@.len(),
            p@ == target@,
            p@.len() > 0,
            i <= n + 1,
            forall|j: int| #[trigger]
                text::occurs_at(v@, p@, j) && 0 <= j < i ==> !opens_call(v@, j + p@.len()),
        decreases n + 1 - i,
    {
        match text::find(v, &p, i) {
            Some(at) => {
                if call_opens(v, at + p.len()) {
                    assert(text::occurs_at(v@, p@, at as int));
                    return true;
                }
                i = at + 1;
            },
            None => {
                return false;
            },
        }
    }
    false
}

/// Whether a text makes a module.
pub fn has_call(s: &str) -> (r: bool)
    ensures
        r == makes_module(s@),
{
    let v = chars_of(s);
    proof {
        reveal_strlit(".Controller");
        reveal_strlit(".Service");
        reveal_strlit(".Component");
    }
    has_call_of(&v, ".Controller") || has_call_of(&v, ".Service") || has_call_of(&v, ".Component")
}

/// A file is written by the generator: it has the name that leaves once had, or
/// it is one of the targets, or lies below one. `resolved` is the path with its
/// links resolved, where the file exists.
pub open spec fn generated(path: Text, resolved: Option<Text>, targets: Seq<Text>) -> bool {
    paths::name_of(path) == Some("Type.luau"@) || (resolved is Some && within(
        resolved->0,
        targets,
    ))
}

/// A path is one of the targets, or lies below one.
pub open spec fn within(path: Text, targets: Seq<Text>) -> bool {
    exists|i: int| 0 <= i < targets.len() && #[trigger] paths::under(path, targets[i])
}

/// Whether a path lies in one of some folders.
pub fn lies_within(path: &str, dirs: &Vec<String>) -> (r: bool)
    ensures
        r == within(path@, dirs.deep_view()),
{
    let ghost all = dirs.deep_view();
    let mut i: usize = 0;
    while i < dirs.len()
        invariant
            all == dirs.deep_view(),
            i <= all.len(),
            forall|j: int| 0 <= j < i ==> !#[trigger] paths::under(path@, all[j]),
        decreases dirs.len() - i,
    {
        assert(all[i as int] == dirs@[i as int]@);
        if paths::is_under(path, dirs[i].as_str()) {
            return true;
        }
        i = i + 1;
    }
    false
}

/// Whether a file is written by the generator.
pub fn is_generated(path: &str, resolved: &Option<String>, targets: &Vec<String>) -> (r: bool)
    ensures
        r == generated(path@, resolved.deep_view(), targets.deep_view()),
{
    if let Some(name) = paths::file_name(path) {
        if same(name.as_str(), "Type.luau") {
            return true;
        }
    }
    match resolved {
        Some(a) => lies_within(a.as_str(), targets),
        None => false,
    }
}

/// A file that is watched: one of Luau code that the generator does not write.
pub open spec fn watched(path: Text, resolved: Option<Text>, targets: Seq<Text>) -> bool {
    paths::is_luau(path) && !generated(path, resolved, targets)
}

/// Whether a file is watched.
pub fn is_watched(path: &str, resolved: &Option<String>, targets: &Vec<String>) -> (r: bool)
    ensures
        r == watched(path@, resolved.deep_view(), targets.deep_view()),
{
    paths::holds_luau(path) && !is_generated(path, resolved, targets)
}

/// A file that may be a module: one that is watched and is not the framework's.
pub open spec fn eligible(path: Text, resolved: Option<Text>, targets: Seq<Text>) -> bool {
    watched(path, resolved, targets) && !paths::passes_through(path, "Modux"@)
}

/// Whether a file may be a module.
pub fn is_eligible(path: &str, resolved: &Option<String>, targets: &Vec<String>) -> (r: bool)
    ensures
        r == eligible(path@, resolved.deep_view(), targets.deep_view()),
{
    is_watched(path, resolved, targets) && !paths::goes_through(path, "Modux")
}

/// The files whose text makes a module, in the order of their paths.
pub open spec fn modules_among(files: Seq<(Text, Text)>) -> Seq<Text>
    decreases files.len(),
{
    if files.len() == 0 {
        Seq::empty()
    } else {
        let some = modules_among(files.drop_last());
        if makes_module(files.last().1) {
            paths::with_path(some, files.last().0)
        } else {
            some
        }
    }
}

/// The files, given with their texts, that are modules.
pub fn find_modules(files: &Vec<(String, String)>) -> (r: Vec<String>)
    ensures
        r.deep_view() == modules_among(files.deep_view()),
{
    let ghost all = files.deep_view();
    let mut out: Vec<String> = Vec::new();
    let mut i: usize = 0;
    assert(out.deep_view() =~= Seq::empty());
    while i < files.len()
        invariant
            all == files.deep_view(),
            i <= all.len(),
            out.deep_view() == modules_among(all.take(i as int)),
        decreases files.len() - i,
    {
        assert(all.take(i + 1).drop_last() =~= all.take(i as int));
        if has_call(files[i].1.as_str()) {
            paths::add_path(&mut out, files[i].0.as_str());
        }
        i = i + 1;
    }
    assert(all.take(i as int) =~= all);
    out
}

/// The modules that are the `init.luau` of a folder.
pub open spec fn foldered(modules: Seq<Text>) -> Seq<Text>
    decreases modules.len(),
{
    if modules.len() == 0 {
        Seq::empty()
    } else {
        let some = foldered(modules.drop_last());
        if paths::name_of(modules.last()) == Some("init.luau"@) {
            some.push(modules.last())
        } else {
            some
        }
    }
}

/// The modules that are the `init.luau` of a folder.
pub fn foldered_modules(modules: &Vec<String>) -> (r: Vec<String>)
    ensures
        r.deep_view() == foldered(modules.deep_view()),
{
    let ghost all = modules.deep_view();
    let mut out: Vec<String> = Vec::new();
    let mut i: usize = 0;
    assert(out.deep_view() =~= Seq::empty());
    while i < modules.len()
        invariant
            all == modules.deep_view(),
            i <= all.len(),
            out.deep_view() == foldered(all.take(i as int)),
        decreases modules.len() - i,
    {
        assert(all.take(i + 1).drop_last() =~= all.take(i as int));
        assert(all[i as int] == modules@[i as int]@);
        if let Some(name) = paths::file_name(modules[i].as_str()) {
            if same(name.as_str(), "init.luau") {
                text::push(&mut out, copy(modules[i].as_str()));
            }
        }
        i = i + 1;
    }
    assert(all.take(i as int) =~= all);
    out
}

/// Where the leaf of a module once stood: beside it.
pub open spec fn old_leaf(module: Text) -> Option<Text> {
    match paths::parent_of(module) {
        Some(p) => Some(paths::path_join(p, "Type.luau"@)),
        None => None,
    }
}

/// Where the leaf of a module once stood.
pub fn leaf_beside(module: &str) -> (r: Option<String>)
    ensures
        r.deep_view() == old_leaf(module@),
{
    match paths::parent(module) {
        Some(p) => Some(join_path(p.as_str(), "Type.luau")),
        None => None,
    }
}

/// Where the leaves of modules once stood, in the order of the paths, each once.
pub open spec fn old_leaves(modules: Seq<Text>) -> Seq<Text>
    decreases modules.len(),
{
    if modules.len() == 0 {
        Seq::empty()
    } else {
        let some = old_leaves(modules.drop_last());
        match old_leaf(modules.last()) {
            Some(leaf) => paths::with_path(some, leaf),
            None => some,
        }
    }
}

/// Where the leaves of modules once stood. Such a file is still an instance of
/// the game, with a copy of the type that nobody keeps up to date.
pub fn legacy_leaves(modules: &Vec<String>) -> (r: Vec<String>)
    ensures
        r.deep_view() == old_leaves(modules.deep_view()),
{
    let ghost all = modules.deep_view();
    let mut out: Vec<String> = Vec::new();
    let mut i: usize = 0;
    assert(out.deep_view() =~= Seq::empty());
    while i < modules.len()
        invariant
            all == modules.deep_view(),
            i <= all.len(),
            out.deep_view() == old_leaves(all.take(i as int)),
        decreases modules.len() - i,
    {
        assert(all.take(i + 1).drop_last() =~= all.take(i as int));
        assert(all[i as int] == modules@[i as int]@);
        if let Some(leaf) = leaf_beside(modules[i].as_str()) {
            paths::add_path(&mut out, leaf.as_str());
        }
        i = i + 1;
    }
    assert(all.take(i as int) =~= all);
    out
}

/// Why a module stays in its folder.
#[derive(Debug)]
pub enum Kept {
    /// The path has nothing above it.
    NoParent { init: String },
    /// The folder holds more.
    Holds { folder: String, leftovers: Vec<String> },
    /// There is something where the module would go.
    Taken { folder: String, destination: String },
}

/// What a `Kept` says.
pub enum KeptView {
    NoParent { init: Text },
    Holds { folder: Text, leftovers: Seq<Text> },
    Taken { folder: Text, destination: Text },
}

impl DeepView for Kept {
    type V = KeptView;

    open spec fn deep_view(&self) -> KeptView {
        match self {
            Kept::NoParent { init } => KeptView::NoParent { init: init@ },
            Kept::Holds { folder, leftovers } => KeptView::Holds {
                folder: folder@,
                leftovers: leftovers.deep_view(),
            },
            Kept::Taken { folder, destination } => KeptView::Taken {
                folder: folder@,
                destination: destination@,
            },
        }
    }
}

/// A reason in words.
pub open spec fn kept_message(k: KeptView) -> Text {
    match k {
        KeptView::NoParent { init } => init + " has no parent folder"@,
        KeptView::Holds { folder, leftovers } => folder + " still holds "@ + text::joined(
            leftovers,
            ", "@,
        ) + " — left as a folder on purpose"@,
        KeptView::Taken { folder, destination } => "cannot flatten "@ + folder + ": "@ + destination
            + " already exists"@,
    }
}

impl Kept {
    /// The reason in words.
    pub fn message(&self) -> (r: String)
        ensures
            r@ == kept_message(self.deep_view()),
    {
        match self {
            Kept::NoParent { init } => copy(init.as_str()).concat(" has no parent folder"),
            Kept::Holds { folder, leftovers } => copy(folder.as_str()).concat(
                " still holds ",
            ).concat(text::join(leftovers, ", ").as_str()).concat(
                " — left as a folder on purpose",
            ),
            Kept::Taken { folder, destination } => copy("cannot flatten ").concat(
                folder.as_str(),
            ).concat(": ").concat(destination.as_str()).concat(" already exists"),
        }
    }
}

/// What a folder holds besides its module and an old leaf.
pub open spec fn leftovers(names: Seq<Text>) -> Seq<Text>
    decreases names.len(),
{
    if names.len() == 0 {
        Seq::empty()
    } else {
        let some = leftovers(names.drop_last());
        if names.last() == "init.luau"@ || names.last() == "Type.luau"@ {
            some
        } else {
            some.push(names.last())
        }
    }
}

/// What a folder holds besides its module and an old leaf.
fn left_over(names: &Vec<String>) -> (r: Vec<String>)
    ensures
        r.deep_view() == leftovers(names.deep_view()),
{
    let ghost all = names.deep_view();
    let mut out: Vec<String> = Vec::new();
    let mut i: usize = 0;
    assert(out.deep_view() =~= Seq::empty());
    while i < names.len()
        invariant
            all == names.deep_view(),
            i <= all.len(),
            out.deep_view() == leftovers(all.take(i as int)),
        decreases names.len() - i,
    {
        assert(all.take(i + 1).drop_last() =~= all.take(i as int));
        assert(all[i as int] == names@[i as int]@);
        let name = names[i].as_str();
        if !same(name, "init.luau") && !same(name, "Type.luau") {
            text::push(&mut out, copy(name));
        }
        i = i + 1;
    }
    assert(all.take(i as int) =~= all);
    out
}

/// Where the module of a folder goes when it becomes a file of its own: the
/// folder's name, as a file.
pub open spec fn flat(init: Text) -> Option<Text> {
    match paths::parent_of(init) {
        Some(folder) => Some(paths::lengthened(folder, ".luau"@)),
        None => None,
    }
}

/// Where the module of a folder goes when it becomes a file of its own.
pub fn destination(init: &str) -> (r: Option<String>)
    ensures
        r.deep_view() == flat(init@),
{
    match paths::parent(init) {
        Some(folder) => Some(paths::lengthen(folder.as_str(), ".luau")),
        None => None,
    }
}

/// A folder and where its module goes, or why it stays.
pub open spec fn flattened(init: Text, names: Seq<Text>, taken: bool) -> Result<
    (Text, Text),
    KeptView,
> {
    match paths::parent_of(init) {
        None => Err(KeptView::NoParent { init }),
        Some(folder) => {
            let rest = leftovers(names);
            let destination = paths::lengthened(folder, ".luau"@);
            if rest.len() > 0 {
                Err(KeptView::Holds { folder, leftovers: rest })
            } else if taken {
                Err(KeptView::Taken { folder, destination })
            } else {
                Ok((folder, destination))
            }
        },
    }
}

/// A folder and its destination, or the reason, as a value.
pub open spec fn verdict(r: Result<(String, String), Kept>) -> Result<(Text, Text), KeptView> {
    match r {
        Ok((folder, destination)) => Ok((folder@, destination@)),
        Err(k) => Err(k.deep_view()),
    }
}

/// Whether the module of a folder can become a file of its own. `names` is what
/// the folder holds, and `taken` says that there is something where the module
/// would go.
///
/// A folder with an `init.luau` and a file with the folder's name are the same
/// instance, so no require changes. What else stands in the folder was put there
/// by hand, so then the folder stays.
pub fn flatten(init: &str, names: &Vec<String>, taken: bool) -> (r: Result<(String, String), Kept>)
    ensures
        verdict(r) == flattened(init@, names.deep_view(), taken),
{
    let Some(folder) = paths::parent(init) else {
        return Err(Kept::NoParent { init: copy(init) });
    };
    let rest = left_over(names);
    if rest.len() > 0 {
        return Err(Kept::Holds { folder, leftovers: rest });
    }
    let destination = paths::lengthen(folder.as_str(), ".luau");
    if taken {
        return Err(Kept::Taken { folder, destination });
    }
    Ok((folder, destination))
}

/// Nothing is left to migrate: no module alone in a folder, no old leaf, and no
/// folder where leaves once were.
pub open spec fn settled(foldered: Seq<Text>, legacy: Seq<Text>, old_types: bool) -> bool {
    foldered.len() == 0 && legacy.len() == 0 && !old_types
}

/// Whether nothing is left to migrate.
pub fn is_settled(foldered: &Vec<String>, legacy: &Vec<String>, old_types: bool) -> (r: bool)
    ensures
        r == settled(foldered.deep_view(), legacy.deep_view(), old_types),
{
    foldered.len() == 0 && legacy.len() == 0 && !old_types
}

/// A move, as messages show it.
pub open spec fn move_line(root: Text, from: Text, to: Text) -> Text {
    paths::shown(root, from) + "  ->  "@ + paths::shown(root, to)
}

/// A move, as messages show it.
pub fn line_of_move(root: &str, from: &str, to: &str) -> (r: String)
    ensures
        r@ == move_line(root@, from@, to@),
{
    paths::show(root, from).concat("  ->  ").concat(paths::show(root, to).as_str())
}

/// The moves of modules out of their folders.
pub open spec fn flat_lines(root: Text, foldered: Seq<Text>) -> Seq<Text>
    decreases foldered.len(),
{
    if foldered.len() == 0 {
        Seq::empty()
    } else {
        let some = flat_lines(root, foldered.drop_last());
        match flat(foldered.last()) {
            Some(to) => some.push(move_line(root, foldered.last(), to)),
            None => some,
        }
    }
}

/// The old leaves that go.
pub open spec fn gone_lines(root: Text, legacy: Seq<Text>) -> Seq<Text> {
    legacy.map_values(|leaf: Text| paths::shown(root, leaf) + "  ->  (removida)"@)
}

/// What a migration would do, without doing it: a line for each module that
/// moves and for each old leaf that goes.
pub fn dry_run(root: &str, foldered: &Vec<String>, legacy: &Vec<String>) -> (r: Vec<String>)
    ensures
        r.deep_view() == flat_lines(root@, foldered.deep_view()) + gone_lines(
            root@,
            legacy.deep_view(),
        ),
{
    let ghost all = foldered.deep_view();
    let mut out: Vec<String> = Vec::new();
    let mut i: usize = 0;
    assert(out.deep_view() =~= Seq::empty());
    while i < foldered.len()
        invariant
            all == foldered.deep_view(),
            i <= all.len(),
            out.deep_view() == flat_lines(root@, all.take(i as int)),
        decreases foldered.len() - i,
    {
        assert(all.take(i + 1).drop_last() =~= all.take(i as int));
        assert(all[i as int] == foldered@[i as int]@);
        if let Some(to) = destination(foldered[i].as_str()) {
            text::push(&mut out, line_of_move(root, foldered[i].as_str(), to.as_str()));
        }
        i = i + 1;
    }
    assert(all.take(i as int) =~= all);
    let ghost moves = out.deep_view();
    let ghost want = gone_lines(root@, legacy.deep_view());
    let mut k: usize = 0;
    assert(moves + want.take(0) =~= moves);
    while k < legacy.len()
        invariant
            want == gone_lines(root@, legacy.deep_view()),
            k <= legacy@.len(),
            out.deep_view() == moves + want.take(k as int),
        decreases legacy.len() - k,
    {
        let line = paths::show(root, legacy[k].as_str()).concat("  ->  (removida)");
        assert(want[k as int] == line@);
        assert((moves + want.take(k as int)).push(line@) =~= moves + want.take(k + 1));
        text::push(&mut out, line);
        k = k + 1;
    }
    assert(want.take(k as int) =~= want);
    out
}

/// A module that is flattened becomes the file with the name of its folder.
pub proof fn law_flat(dir: Text, name: Text)
    requires
        dir.len() > 0,
        paths::fits(paths::PartView::Name(name), false),
    ensures
        flat(rojo::as_folder(dir, name)) is Some,
        paths::parts(flat(rojo::as_folder(dir, name))->0) == paths::parts(
            rojo::as_file(dir, name),
        ),
{
    reveal_strlit("/init.luau");
    reveal_strlit("init.luau");
    reveal_strlit(".luau");
    reveal_strlit(".");
    reveal_strlit("..");
    let init = "init.luau"@;
    let file = name + ".luau"@;
    let folder = dir.push('/') + name;
    assert(rojo::as_folder(dir, name) =~= folder.push('/') + init);
    assert(rojo::as_file(dir, name) =~= dir.push('/') + file);
    assert(!file.contains('/')) by {
        if file.contains('/') {
            let i = choose|i: int| 0 <= i < file.len() && file[i] == '/';
            if i < name.len() {
                assert(name[i] == '/');
                assert(name.contains('/'));
            }
        }
    }
    assert(file[name.len() as int] == '.');
    paths::law_name_behind(dir, name);
    paths::law_name_behind(folder, init);
    paths::law_name_behind(dir, file);
    paths::law_parent(rojo::as_folder(dir, name));
    let parent = paths::parent_of(rojo::as_folder(dir, name))->0;
    assert(paths::parts(folder).push(paths::PartView::Name(init)).drop_last() =~= paths::parts(
        folder,
    ));
    assert(paths::parts(parent) == paths::parts(folder));
    assert(paths::name_of(parent) == Some(name));
    assert(!".luau"@.contains('/'));
    paths::law_lengthened(parent, ".luau"@);
    assert(paths::parts(folder).drop_last() =~= paths::parts(dir));
}

/// A module leaves its folder only where the folder holds nothing else but an
/// old leaf, and where nothing is in its way.
pub proof fn law_flatten_only_alone(init: Text, names: Seq<Text>, taken: bool)
    ensures
        flattened(init, names, taken) is Ok <==> {
            &&& paths::parent_of(init) is Some
            &&& !taken
            &&& forall|i: int|
                0 <= i < names.len() ==> #[trigger] names[i] == "init.luau"@ || names[i]
                    == "Type.luau"@
        },
{
    lemma_leftovers(names);
}

proof fn lemma_leftovers(names: Seq<Text>)
    ensures
        leftovers(names).len() == 0 <==> forall|i: int|
            0 <= i < names.len() ==> #[trigger] names[i] == "init.luau"@ || names[i]
                == "Type.luau"@,
    decreases names.len(),
{
    if names.len() > 0 {
        let rest = names.drop_last();
        lemma_leftovers(rest);
        if leftovers(names).len() == 0 {
            assert forall|i: int| 0 <= i < names.len() implies #[trigger] names[i] == "init.luau"@
                || names[i] == "Type.luau"@ by {
                if i < rest.len() {
                    assert(rest[i] == names[i]);
                }
            }
        } else if forall|i: int|
            0 <= i < names.len() ==> #[trigger] names[i] == "init.luau"@ || names[i]
                == "Type.luau"@ {
            assert forall|i: int| 0 <= i < rest.len() implies #[trigger] rest[i] == "init.luau"@
                || rest[i] == "Type.luau"@ by {
                assert(rest[i] == names[i]);
            }
            assert(names[names.len() - 1] == names.last());
        }
    }
}

/// The modules that are found are files that make one, they stand in the order
/// of their paths, and no file that makes one is passed over.
pub proof fn law_found(files: Seq<(Text, Text)>)
    ensures
        paths::in_path_order(modules_among(files)),
        forall|p: Text| #[trigger]
            modules_among(files).contains(p) ==> exists|i: int|
                0 <= i < files.len() && (#[trigger] files[i]).0 == p && makes_module(files[i].1),
        forall|i: int|
            0 <= i < files.len() && makes_module((#[trigger] files[i]).1) ==> paths::leads_there(
                modules_among(files),
                files[i].0,
            ),
    decreases files.len(),
{
    if files.len() > 0 {
        let rest = files.drop_last();
        law_found(rest);
        let some = modules_among(rest);
        let all = modules_among(files);
        let last = files.last();
        if makes_module(last.1) {
            paths::law_with_path(some, last.0);
        }
        assert forall|p: Text| #[trigger] all.contains(p) implies exists|i: int|
            0 <= i < files.len() && (#[trigger] files[i]).0 == p && makes_module(files[i].1) by {
            if some.contains(p) {
                let i = choose|i: int|
                    0 <= i < rest.len() && (#[trigger] rest[i]).0 == p && makes_module(rest[i].1);
                assert(files[i] == rest[i]);
            } else {
                assert(files[files.len() - 1].0 == p);
            }
        }
        assert forall|i: int|
            0 <= i < files.len() && makes_module(
                (#[trigger] files[i]).1,
            ) implies paths::leads_there(all, files[i].0) by {
            if i < rest.len() {
                assert(rest[i] == files[i]);
                assert(paths::leads_there(some, rest[i].0));
                let k = choose|k: int|
                    0 <= k < some.len() && paths::parts(#[trigger] some[k]) == paths::parts(
                        rest[i].0,
                    );
                assert(some.contains(some[k]));
                assert(all.contains(some[k]));
                let m = choose|m: int| 0 <= m < all.len() && all[m] == some[k];
                assert(paths::parts(all[m]) == paths::parts(files[i].0));
            }
        }
    }
}

/// A file that the generator writes is never taken for a module, nor watched.
pub proof fn law_generated_is_no_module(path: Text, resolved: Option<Text>, targets: Seq<Text>)
    requires
        generated(path, resolved, targets),
    ensures
        !watched(path, resolved, targets),
        !eligible(path, resolved, targets),
{
}

} // verus!
