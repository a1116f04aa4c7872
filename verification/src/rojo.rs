//! The instance tree: where each file of the project ends up in the game.

use vstd::prelude::*;

use crate::json::{self, find_member, find_text, read_json, Json, Tree};
use crate::table::{self, Rows, Table};
use crate::text::{self, copy, same, Text};

verus! {

/// Who runs a module.
#[derive(Debug, Clone, Copy, PartialEq, Eq, PartialOrd, Ord, Structural)]
pub enum Side {
    Client,
    Server,
    Shared,
}

impl DeepView for Side {
    type V = Side;

    open spec fn deep_view(&self) -> Side {
        *self
    }
}

/// The name of a side.
pub open spec fn side_name(side: Side) -> Text {
    match side {
        Side::Client => "client"@,
        Side::Server => "server"@,
        Side::Shared => "shared"@,
    }
}

impl Side {
    /// The name of the side.
    pub fn name(self) -> (r: &'static str)
        ensures
            r@ == side_name(self),
    {
        match self {
            Side::Client => "client",
            Side::Server => "server",
            Side::Shared => "shared",
        }
    }

    /// Shared is seen from everywhere, a side from itself, and nothing else.
    pub open spec fn reaches(self, other: Side) -> bool {
        other == Side::Shared || self == other
    }

    /// Whether code on this side can require code on the other.
    pub fn sees(self, other: Side) -> (r: bool)
        ensures
            r == self.reaches(other),
    {
        match other {
            Side::Shared => true,
            _ => self == other,
        }
    }
}

/// Why there is no map, or no place in it.
#[derive(Debug)]
pub enum MapError {
    /// The file is not JSON; the reader's message.
    NotJson { file: String, detail: String },
    /// The project file has no `tree`.
    NoTree { file: String },
    /// The sourcemap names no file.
    NoFilePaths { file: String },
    /// The file is under no entry of the map.
    Outside { rel: String },
}

/// What a `MapError` says.
pub enum MapFault {
    NotJson { file: Text, detail: Text },
    NoTree { file: Text },
    NoFilePaths { file: Text },
    Outside { rel: Text },
}

impl DeepView for MapError {
    type V = MapFault;

    open spec fn deep_view(&self) -> MapFault {
        match self {
            MapError::NotJson { file, detail } => MapFault::NotJson { file: file@, detail: detail@ },
            MapError::NoTree { file } => MapFault::NoTree { file: file@ },
            MapError::NoFilePaths { file } => MapFault::NoFilePaths { file: file@ },
            MapError::Outside { rel } => MapFault::Outside { rel: rel@ },
        }
    }
}

/// A fault in words.
pub open spec fn fault_message(f: MapFault) -> Text {
    match f {
        MapFault::NotJson { file, detail } => file + " is not valid JSON: "@ + detail,
        MapFault::NoTree { file } => file + " has no `tree`"@,
        MapFault::NoFilePaths { file } => file + " has no filePaths; is it a sourcemap?"@,
        MapFault::Outside { rel } => "path outside default.project.json: "@ + rel,
    }
}

impl MapError {
    /// The error in words.
    pub fn message(&self) -> (r: String)
        ensures
            r@ == fault_message(self.deep_view()),
    {
        match self {
            MapError::NotJson { file, detail } => copy(file.as_str()).concat(
                " is not valid JSON: ",
            ).concat(detail.as_str()),
            MapError::NoTree { file } => copy(file.as_str()).concat(" has no `tree`"),
            MapError::NoFilePaths { file } => copy(file.as_str()).concat(
                " has no filePaths; is it a sourcemap?",
            ),
            MapError::Outside { rel } => copy("path outside default.project.json: ").concat(
                rel.as_str(),
            ),
        }
    }
}

/// From files and folders on disk to paths in the game.
pub struct RojoMap {
    entries: Table<Vec<String>>,
}

impl View for RojoMap {
    type V = Rows<Seq<Text>>;

    closed spec fn view(&self) -> Rows<Seq<Text>> {
        self.entries@
    }
}

/// A path as the map writes it: forward slashes, none at the end.
pub open spec fn disk_of(path: Text) -> Text {
    text::trim_end_of(text::slashes(path), '/')
}

/// A `$path`: the text itself, or the text under `optional`, or under `path`
/// where there is no `optional`.
pub open spec fn path_text(node: Tree) -> Option<Text> {
    match node {
        Tree::Text(t) => Some(t),
        Tree::Object(o) => match json::member(o, "optional"@) {
            Some(Tree::Text(t)) => Some(t),
            Some(_) => None,
            None => json::text_member(o, "path"@),
        },
        _ => None,
    }
}

/// The entries of a project file's node at `trail`, bound after those in `out`:
/// its own `$path`, then what its children hold.
pub open spec fn descended(node: Tree, trail: Seq<Text>, out: Rows<Seq<Text>>) -> Rows<Seq<Text>>
    decreases node, 0nat,
{
    match node {
        Tree::Object(o) => {
            let own = match json::member(o, "$path"@) {
                Some(p) => match path_text(p) {
                    Some(t) => table::put(out, disk_of(t), trail),
                    None => out,
                },
                None => out,
            };
            descended_all(o, o.len(), trail, own)
        },
        _ => out,
    }
}

/// The entries of the first `n` members, those whose key begins with `$` left
/// out, each child one step further down the trail.
pub open spec fn descended_all(
    o: Seq<(Text, Tree)>,
    n: nat,
    trail: Seq<Text>,
    out: Rows<Seq<Text>>,
) -> Rows<Seq<Text>>
    decreases o, n,
{
    if n == 0 || n > o.len() {
        out
    } else {
        let done = descended_all(o, (n - 1) as nat, trail, out);
        let (key, child) = o[n - 1];
        if "$"@.is_prefix_of(key) {
            done
        } else {
            descended(child, trail.push(key), done)
        }
    }
}

/// One step further down a trail.
fn extended(trail: &Vec<String>, name: &str) -> (r: Vec<String>)
    ensures
        r.deep_view() == trail.deep_view().push(name@),
{
    let mut below = text::copy_all(trail);
    text::push(&mut below, copy(name));
    below
}

/// Reads a `$path`.
fn path_in(node: &Json) -> (r: Option<String>)
    ensures
        r.deep_view() == path_text(node@),
{
    match node {
        Json::Text(t) => Some(copy(t.as_str())),
        Json::Object(o) => {
            proof {
                json::lemma_parts(*node);
            }
            match find_member(o, "optional") {
                Some(i) => match &o[i].1 {
                    Json::Text(t) => Some(copy(t.as_str())),
                    _ => None,
                },
                None => match find_text(o, "path") {
                    Some(t) => Some(copy(t.as_str())),
                    None => None,
                },
            }
        },
        _ => None,
    }
}

/// A path as the map writes it.
fn disk(path: &str) -> (r: String)
    ensures
        r@ == disk_of(path@),
{
    text::trim_end_matches(text::replace(path, '\\', '/').as_str(), '/')
}

/// Adds the entries of a project file's node.
fn descend(node: &Json, trail: &Vec<String>, out: &mut Table<Vec<String>>)
    requires
        old(out).wf(),
    ensures
        final(out).wf(),
        final(out)@ == descended(node@, trail.deep_view(), old(out)@),
    decreases node,
{
    if let Json::Object(o) = node {
        proof {
            json::lemma_parts(*node);
        }
        if let Some(i) = find_member(o, "$path") {
            if let Some(t) = path_in(&o[i].1) {
                out.put(disk(t.as_str()).as_str(), text::copy_all(trail));
            }
        }
        let ghost own = out@;
        let mut n: usize = 0;
        while n < o.len()
            invariant
                out.wf(),
                n <= o@.len(),
                node == Json::Object(*o),
                out@ == descended_all(json::members_view(*o), n as nat, trail.deep_view(), own),
            decreases o.len() - n,
        {
            let key = &o[n].0;
            assert(decreases_to!(node => node->Object_0));
            assert(decreases_to!(node->Object_0 => node->Object_0@[n as int].1));
            if !text::starts_with(key.as_str(), "$") {
                descend(&o[n].1, &extended(trail, key.as_str()), out);
            }
            n = n + 1;
        }
    }
}

/// Whether a file of a sourcemap is code.
pub open spec fn is_code(disk: Text) -> bool {
    ".luau"@.is_suffix_of(disk) || ".lua"@.is_suffix_of(disk)
}

/// The folder whose `init` a file is.
pub open spec fn init_folder(disk: Text) -> Option<Text> {
    match text::without_suffix(disk, "/init.luau"@) {
        Some(dir) => Some(dir),
        None => text::without_suffix(disk, "/init.lua"@),
    }
}

/// A file of a sourcemap's node bound to the node's trail, and the folder too
/// where the file is its `init`. What is not code is left out.
pub open spec fn filed(file: Tree, trail: Seq<Text>, out: Rows<Seq<Text>>) -> Rows<Seq<Text>> {
    match file {
        Tree::Text(t) => {
            let disk = disk_of(t);
            if is_code(disk) {
                let own = table::put(out, disk, trail);
                match init_folder(disk) {
                    Some(dir) => table::put(own, dir, trail),
                    None => own,
                }
            } else {
                out
            }
        },
        _ => out,
    }
}

/// The files of a node, bound one after the other.
pub open spec fn filed_all(
    files: Seq<Tree>,
    trail: Seq<Text>,
    out: Rows<Seq<Text>>,
) -> Rows<Seq<Text>>
    decreases files.len(),
{
    if files.len() == 0 {
        out
    } else {
        filed(files.last(), trail, filed_all(files.drop_last(), trail, out))
    }
}

/// The trail of a sourcemap's node: its parent's with its own name, but for the
/// `DataModel` at the root, which has no name in a path.
pub open spec fn trail_of(o: Seq<(Text, Tree)>, name: Text, trail: Seq<Text>) -> Seq<Text> {
    if trail.len() > 0 || json::text_member(o, "className"@) != Some("DataModel"@) {
        trail.push(name)
    } else {
        trail
    }
}

/// The entries of a sourcemap's node under `trail`, bound after those in `out`:
/// its files, then what its children hold. A node without a name holds nothing.
pub open spec fn gathered(node: Tree, trail: Seq<Text>, out: Rows<Seq<Text>>) -> Rows<Seq<Text>>
    decreases node, 0nat,
{
    match node {
        Tree::Object(o) => match json::text_member(o, "name"@) {
            Some(name) => {
                let below = trail_of(o, name, trail);
                let own = match json::member(o, "filePaths"@) {
                    Some(Tree::List(files)) => filed_all(files, below, out),
                    _ => out,
                };
                let at = json::place(o, "children"@);
                if 0 <= at < o.len() {
                    match o[at].1 {
                        Tree::List(children) => gathered_all(
                            children,
                            children.len(),
                            below,
                            own,
                        ),
                        _ => own,
                    }
                } else {
                    own
                }
            },
            None => out,
        },
        _ => out,
    }
}

/// The entries of the first `n` children.
pub open spec fn gathered_all(
    children: Seq<Tree>,
    n: nat,
    trail: Seq<Text>,
    out: Rows<Seq<Text>>,
) -> Rows<Seq<Text>>
    decreases children, n,
{
    if n == 0 || n > children.len() {
        out
    } else {
        gathered(
            children[n - 1],
            trail,
            gathered_all(children, (n - 1) as nat, trail, out),
        )
    }
}

/// Adds a node's file.
fn file_entry(file: &str, trail: &Vec<String>, out: &mut Table<Vec<String>>)
    requires
        old(out).wf(),
    ensures
        final(out).wf(),
        final(out)@ == filed(Tree::Text(file@), trail.deep_view(), old(out)@),
{
    let at = disk(file);
    if text::ends_with(at.as_str(), ".luau") || text::ends_with(at.as_str(), ".lua") {
        out.put(at.as_str(), text::copy_all(trail));
        let dir = match text::strip_suffix(at.as_str(), "/init.luau") {
            Some(dir) => Some(dir),
            None => text::strip_suffix(at.as_str(), "/init.lua"),
        };
        if let Some(dir) = dir {
            out.put(dir.as_str(), text::copy_all(trail));
        }
    }
}

/// Adds a node's files.
fn file_entries(files: &Vec<Json>, trail: &Vec<String>, out: &mut Table<Vec<String>>)
    requires
        old(out).wf(),
    ensures
        final(out).wf(),
        final(out)@ == filed_all(json::items_view(*files), trail.deep_view(), old(out)@),
{
    let ghost all = json::items_view(*files);
    let mut i: usize = 0;
    assert(all.take(0) =~= Seq::empty());
    while i < files.len()
        invariant
            all == json::items_view(*files),
            i <= files@.len(),
            out.wf(),
            out@ == filed_all(all.take(i as int), trail.deep_view(), old(out)@),
        decreases files.len() - i,
    {
        assert(all.take(i + 1).drop_last() =~= all.take(i as int));
        if let Json::Text(t) = &files[i] {
            file_entry(t.as_str(), trail, out);
        }
        i = i + 1;
    }
    assert(all.take(i as int) =~= all);
}

/// Adds the entries of a sourcemap's node.
fn gather(node: &Json, trail: &Vec<String>, out: &mut Table<Vec<String>>)
    requires
        old(out).wf(),
    ensures
        final(out).wf(),
        final(out)@ == gathered(node@, trail.deep_view(), old(out)@),
    decreases node,
{
    let Json::Object(o) = node else {
        return;
    };
    proof {
        json::lemma_parts(*node);
    }
    let Some(name) = find_text(o, "name") else {
        return;
    };
    let is_model = match find_text(o, "className") {
        Some(class) => same(class.as_str(), "DataModel"),
        None => false,
    };
    let below = if trail.len() > 0 || !is_model {
        extended(trail, name.as_str())
    } else {
        text::copy_all(trail)
    };
    assert(below.deep_view() == trail_of(node@->Object_0, name@, trail.deep_view()));
    if let Some(i) = find_member(o, "filePaths") {
        if let Json::List(files) = &o[i].1 {
            proof {
                json::lemma_parts(o@[i as int].1);
            }
            file_entries(files, &below, out);
        }
    }
    let ghost own = out@;
    if let Some(i) = find_member(o, "children") {
        if let Json::List(children) = &o[i].1 {
            proof {
                json::lemma_parts(o@[i as int].1);
            }
            let mut n: usize = 0;
            while n < children.len()
                invariant
                    out.wf(),
                    n <= children@.len(),
                    node == Json::Object(*o),
                    i < o@.len(),
                    o@[i as int].1 == Json::List(*children),
                    out@ == gathered_all(
                        json::items_view(*children),
                        n as nat,
                        below.deep_view(),
                        own,
                    ),
                decreases children.len() - n,
            {
                proof {
                    let list = node->Object_0@[i as int].1;
                    assert(decreases_to!(node => node->Object_0));
                    assert(decreases_to!(node->Object_0 => list));
                    assert(decreases_to!(list => list->List_0));
                    assert(decreases_to!(list->List_0 => list->List_0@[n as int]));
                }
                gather(&children[n], &below, out);
                n = n + 1;
            }
        }
    }
}

/// The entries of a project file, given its document.
pub open spec fn project_entries(file: Text, document: Tree) -> Result<Rows<Seq<Text>>, MapFault> {
    match document {
        Tree::Object(o) => match json::member(o, "tree"@) {
            Some(Tree::Object(t)) => Ok(descended_all(t, t.len(), Seq::empty(), Seq::empty())),
            Some(_) => Ok(Seq::empty()),
            None => Err(MapFault::NoTree { file }),
        },
        _ => Err(MapFault::NoTree { file }),
    }
}

/// The entries of a sourcemap, given its document.
pub open spec fn sourcemap_entries(file: Text, document: Tree) -> Result<
    Rows<Seq<Text>>,
    MapFault,
> {
    let entries = gathered(document, Seq::empty(), Seq::empty());
    if entries.len() == 0 {
        Err(MapFault::NoFilePaths { file })
    } else {
        Ok(entries)
    }
}

/// `disk` is the file itself or a folder above it.
pub open spec fn above(rel: Text, disk: Text) -> bool {
    rel == disk || disk.push('/').is_prefix_of(rel)
}

/// The entry that speaks for a file: of those that are the file or a folder
/// above it, the one with the longest path.
pub open spec fn longest(entries: Rows<Seq<Text>>, rel: Text) -> Option<(Text, Seq<Text>)>
    decreases entries.len(),
{
    if entries.len() == 0 {
        None
    } else {
        let others = longest(entries.drop_last(), rel);
        let e = entries.last();
        match others {
            Some((disk, trail)) => if above(rel, e.0) && disk.len() < e.0.len() {
                Some(e)
            } else {
                others
            },
            None => if above(rel, e.0) {
                Some(e)
            } else {
                None
            },
        }
    }
}

/// The entry that speaks for a file is the most specific one: it is the file or
/// a folder above it, and no entry that is either has a longer path. A file is
/// outside the map exactly where there is none.
pub proof fn law_most_specific(entries: Rows<Seq<Text>>, rel: Text)
    ensures
        match longest(entries, rel) {
            Some(e) => entries.contains(e) && above(rel, e.0) && forall|i: int|
                0 <= i < entries.len() && above(rel, (#[trigger] entries[i]).0) ==> entries[i].0.len()
                    <= e.0.len(),
            None => forall|i: int| 0 <= i < entries.len() ==> !above(rel, (#[trigger] entries[i]).0),
        },
    decreases entries.len(),
{
    if entries.len() > 0 {
        let fewer = entries.drop_last();
        law_most_specific(fewer, rel);
        assert(entries[entries.len() - 1] == entries.last());
        assert forall|i: int| 0 <= i < entries.len() - 1 implies entries[i] == fewer[i] by {}
        if let Some(e) = longest(fewer, rel) {
            let k = choose|k: int| 0 <= k < fewer.len() && fewer[k] == e;
            assert(entries[k] == e);
        }
    }
}

/// A file that has an entry of its own is found there, at the trail of that
/// entry.
pub proof fn law_exact_entry(entries: Rows<Seq<Text>>, file: Text, i: int)
    requires
        table::sorted(entries),
        0 <= i < entries.len(),
        entries[i].0 == text::slashes(file),
    ensures
        path_of(entries, file) == Ok::<Text, MapFault>(text::joined(entries[i].1, "."@)),
{
    let rel = text::slashes(file);
    law_most_specific(entries, rel);
    assert(above(rel, entries[i].0));
    let e = longest(entries, rel)->0;
    let k = choose|k: int| 0 <= k < entries.len() && entries[k] == e;
    assert(e.0 == rel) by {
        if e.0 != rel {
            assert(e.0.push('/').is_prefix_of(rel));
        }
    }
    text::lemma_before_irreflexive(rel, rel);
    assert(k == i);
    assert(rel.skip(rel.len() as int) =~= Seq::empty());
    assert(text::split(Seq::empty(), '/') =~= seq![Seq::<char>::empty()]);
    let keep = |p: Text| p.len() > 0;
    assert(seq![Seq::<char>::empty()].filter(keep) =~= Seq::empty()) by {
        seq![Seq::<char>::empty()].lemma_all_neg_filter_empty(keep);
    }
    assert(entries[i].1 + names_of(Seq::empty()) =~= entries[i].1);
}

/// The name of the script that a file of code becomes: without its extension,
/// and without the suffix that picks the class of the script.
pub open spec fn script_name(file: Text) -> Option<Text> {
    let bare = match text::without_suffix(file, ".luau"@) {
        Some(name) => Some(name),
        None => text::without_suffix(file, ".lua"@),
    };
    match bare {
        Some(name) => Some(sheared(sheared(name, ".client"@), ".server"@)),
        None => None,
    }
}

/// `s` without `p` at its end, or as it is.
pub open spec fn sheared(s: Text, p: Text) -> Text {
    match text::without_suffix(s, p) {
        Some(t) => t,
        None => s,
    }
}

/// The instances below an entry that the rest of a path names. A file named
/// `init` is its folder.
pub open spec fn names_of(rest: Text) -> Seq<Text> {
    let parts = text::split(rest, '/').filter(|p: Text| p.len() > 0);
    if parts.len() == 0 {
        parts
    } else {
        match script_name(parts.last()) {
            Some(name) => if name == "init"@ {
                parts.drop_last()
            } else {
                parts.drop_last().push(name)
            },
            None => parts,
        }
    }
}

/// The path of a file in the game: the trail of the entry that speaks for it,
/// then the instances below, with dots between.
pub open spec fn path_of(entries: Rows<Seq<Text>>, file: Text) -> Result<Text, MapFault> {
    let rel = text::slashes(file);
    match longest(entries, rel) {
        Some((disk, trail)) => Ok(
            text::joined(trail + names_of(rel.skip(disk.len() as int)), "."@),
        ),
        None => Err(MapFault::Outside { rel }),
    }
}

/// A path, or the fault, as a value.
pub open spec fn located(r: Result<String, MapError>) -> Result<Text, MapFault> {
    match r {
        Ok(path) => Ok(path@),
        Err(e) => Err(e.deep_view()),
    }
}

/// The side of what lives under a service.
pub open spec fn side_of_root(root: Text) -> Side {
    if root == "ServerScriptService"@ || root == "ServerStorage"@ {
        Side::Server
    } else if root == "StarterPlayer"@ || root == "StarterGui"@ || root == "StarterPack"@ || root
        == "ReplicatedFirst"@ {
        Side::Client
    } else {
        Side::Shared
    }
}

/// The side of a file: that of the service its path begins with.
pub open spec fn side_at(entries: Rows<Seq<Text>>, file: Text) -> Result<Side, MapFault> {
    match path_of(entries, file) {
        Ok(path) => Ok(side_of_root(text::head_of(path, '.'))),
        Err(f) => Err(f),
    }
}

/// The side of what lives under a service.
fn root_side(root: &str) -> (r: Side)
    ensures
        r == side_of_root(root@),
{
    if same(root, "ServerScriptService") || same(root, "ServerStorage") {
        Side::Server
    } else if same(root, "StarterPlayer") || same(root, "StarterGui") || same(root, "StarterPack")
        || same(root, "ReplicatedFirst") {
        Side::Client
    } else {
        Side::Shared
    }
}

/// Whether `disk` is the file or a folder above it.
fn is_above(rel: &str, disk: &str) -> (r: bool)
    ensures
        r == above(rel@, disk@),
{
    if same(rel, disk) {
        return true;
    }
    let mut folder = copy(disk);
    folder.push('/');
    text::starts_with(rel, folder.as_str())
}

/// Takes `p` off the end, where it is there.
fn shear(s: String, p: &str) -> (r: String)
    ensures
        r@ == sheared(s@, p@),
{
    match text::strip_suffix(s.as_str(), p) {
        Some(t) => t,
        None => s,
    }
}

/// The name of the script that a file becomes.
fn name_of_script(file: &str) -> (r: Option<String>)
    ensures
        r.deep_view() == script_name(file@),
{
    let bare = match text::strip_suffix(file, ".luau") {
        Some(name) => Some(name),
        None => text::strip_suffix(file, ".lua"),
    };
    match bare {
        Some(name) => Some(shear(shear(name, ".client"), ".server")),
        None => None,
    }
}

/// The instances that the rest of a path names.
fn instance_names(rest: &str) -> (r: Vec<String>)
    ensures
        r.deep_view() == names_of(rest@),
{
    let mut parts = text::nonempty(text::pieces(rest, '/'));
    let n = parts.len();
    if n > 0 {
        if let Some(name) = name_of_script(parts[n - 1].as_str()) {
            let ghost was = parts.deep_view();
            parts.pop();
            assert(parts.deep_view() =~= was.drop_last());
            if !same(name.as_str(), "init") {
                text::push(&mut parts, name);
            }
        }
    }
    parts
}

/// A map, or the fault, as a value.
pub open spec fn outcome(r: Result<RojoMap, MapError>) -> Result<Rows<Seq<Text>>, MapFault> {
    match r {
        Ok(map) => Ok(map@),
        Err(e) => Err(e.deep_view()),
    }
}

/// The map of a project file with this text.
pub open spec fn project_map(file: Text, content: Text) -> Result<Rows<Seq<Text>>, MapFault> {
    match json::json_read(content) {
        Ok(document) => project_entries(file, document),
        Err(detail) => Err(MapFault::NotJson { file, detail }),
    }
}

/// The map of a sourcemap with this text.
pub open spec fn sourcemap_map(file: Text, content: Text) -> Result<Rows<Seq<Text>>, MapFault> {
    match json::json_read(content) {
        Ok(document) => sourcemap_entries(file, document),
        Err(detail) => Err(MapFault::NotJson { file, detail }),
    }
}

impl RojoMap {
    /// The entries stand in the order of their paths on disk.
    pub closed spec fn wf(&self) -> bool {
        self.entries.wf()
    }

    /// The map that a project file's document describes.
    pub fn of_project(file: &str, document: &Json) -> (r: Result<RojoMap, MapError>)
        ensures
            outcome(r) == project_entries(file@, document@),
            r matches Ok(map) ==> map.wf(),
    {
        proof {
            json::lemma_parts(*document);
        }
        let Json::Object(o) = document else {
            return Err(MapError::NoTree { file: copy(file) });
        };
        let Some(i) = find_member(o, "tree") else {
            return Err(MapError::NoTree { file: copy(file) });
        };
        let mut entries: Table<Vec<String>> = Table::new();
        if let Json::Object(t) = &o[i].1 {
            proof {
                json::lemma_parts(o@[i as int].1);
            }
            let root: Vec<String> = Vec::new();
            assert(root.deep_view() =~= Seq::<Text>::empty());
            let mut n: usize = 0;
            while n < t.len()
                invariant
                    entries.wf(),
                    n <= t@.len(),
                    root.deep_view() == Seq::<Text>::empty(),
                    entries@ == descended_all(
                        json::members_view(*t),
                        n as nat,
                        Seq::empty(),
                        Seq::empty(),
                    ),
                decreases t.len() - n,
            {
                let key = &t[n].0;
                if !text::starts_with(key.as_str(), "$") {
                    descend(&t[n].1, &extended(&root, key.as_str()), &mut entries);
                }
                n = n + 1;
            }
        }
        Ok(RojoMap { entries })
    }

    /// The map that a sourcemap's document describes.
    pub fn of_sourcemap(file: &str, document: &Json) -> (r: Result<RojoMap, MapError>)
        ensures
            outcome(r) == sourcemap_entries(file@, document@),
            r matches Ok(map) ==> map.wf(),
    {
        let mut entries: Table<Vec<String>> = Table::new();
        let root: Vec<String> = Vec::new();
        assert(root.deep_view() =~= Seq::<Text>::empty());
        gather(document, &root, &mut entries);
        if entries.len() == 0 {
            return Err(MapError::NoFilePaths { file: copy(file) });
        }
        Ok(RojoMap { entries })
    }

    /// The map of a project file, from its text.
    pub fn read(file: &str, content: &str) -> (r: Result<RojoMap, MapError>)
        ensures
            outcome(r) == project_map(file@, content@),
            r matches Ok(map) ==> map.wf(),
    {
        match read_json(content) {
            Ok(document) => RojoMap::of_project(file, &document),
            Err(detail) => Err(MapError::NotJson { file: copy(file), detail }),
        }
    }

    /// The map of a sourcemap, from its text.
    pub fn from_sourcemap(file: &str, content: &str) -> (r: Result<RojoMap, MapError>)
        ensures
            outcome(r) == sourcemap_map(file@, content@),
            r matches Ok(map) ==> map.wf(),
    {
        match read_json(content) {
            Ok(document) => RojoMap::of_sourcemap(file, &document),
            Err(detail) => Err(MapError::NotJson { file: copy(file), detail }),
        }
    }

    /// The path of a file in the game.
    pub fn path(&self, file: &str) -> (r: Result<String, MapError>)
        ensures
            located(r) == path_of(self@, file@),
    {
        let rel = text::replace(file, '\\', '/');
        let mut best: Option<usize> = None;
        let mut i: usize = 0;
        let ghost all = self@;
        assert(all.take(0) =~= Seq::empty());
        while i < self.entries.len()
            invariant
                all == self.entries@,
                i <= all.len(),
                rel@ == text::slashes(file@),
                match best {
                    Some(b) => b < i && longest(all.take(i as int), rel@) == Some(all[b as int]),
                    None => longest(all.take(i as int), rel@) is None,
                },
            decreases all.len() - i,
        {
            assert(all.take(i + 1).drop_last() =~= all.take(i as int));
            let disk = self.entries.key(i);
            if is_above(rel.as_str(), disk.as_str()) {
                let longer = match best {
                    Some(b) => text::longer(disk.as_str(), self.entries.key(b).as_str()),
                    None => true,
                };
                if longer {
                    best = Some(i);
                }
            }
            i = i + 1;
        }
        assert(all.take(i as int) =~= all);
        match best {
            Some(b) => {
                let disk = self.entries.key(b);
                proof {
                    law_most_specific(all, rel@);
                }
                let rest = text::after(rel.as_str(), disk.as_str());
                let mut trail = text::copy_all(self.entries.value(b));
                let parts = instance_names(rest.as_str());
                text::append(&mut trail, &parts);
                Ok(text::join(&trail, "."))
            },
            None => Err(MapError::Outside { rel }),
        }
    }

    /// The side of a file: that of the service its path begins with.
    pub fn side(&self, file: &str) -> (r: Result<Side, MapError>)
        ensures
            match (r, side_at(self@, file@)) {
                (Ok(side), Ok(s)) => side == s,
                (Err(e), Err(f)) => e.deep_view() == f,
                _ => false,
            },
    {
        match self.path(file) {
            Ok(path) => Ok(root_side(text::head(path.as_str(), '.').as_str())),
            Err(e) => Err(e),
        }
    }
}

/// The root of a sourcemap has no name in a path: two sourcemaps whose roots
/// differ in no more than the name make the same map.
pub proof fn law_root_has_no_name(
    o: Seq<(Text, Tree)>,
    p: Seq<(Text, Tree)>,
    out: Rows<Seq<Text>>,
)
    requires
        json::text_member(o, "name"@) is Some,
        json::text_member(p, "name"@) is Some,
        json::text_member(o, "className"@) == Some("DataModel"@),
        json::text_member(p, "className"@) == Some("DataModel"@),
        json::member(o, "filePaths"@) == json::member(p, "filePaths"@),
        json::member(o, "children"@) == json::member(p, "children"@),
    ensures
        gathered(Tree::Object(o), Seq::empty(), out) == gathered(
            Tree::Object(p),
            Seq::empty(),
            out,
        ),
{
}

/// A folder with an `init.luau`.
pub open spec fn as_folder(dir: Text, name: Text) -> Text {
    dir.push('/') + name + "/init.luau"@
}

/// A file with the name of that folder.
pub open spec fn as_file(dir: Text, name: Text) -> Text {
    dir.push('/') + name + ".luau"@
}

/// What is left of two lists without their empty texts.
pub proof fn lemma_filter_cat(a: Seq<Text>, b: Seq<Text>)
    ensures
        (a + b).filter(|p: Text| p.len() > 0) == a.filter(|p: Text| p.len() > 0) + b.filter(
            |p: Text| p.len() > 0,
        ),
    decreases b.len(),
{
    reveal(Seq::filter);
    let keep = |p: Text| p.len() > 0;
    if b.len() == 0 {
        assert(a + b =~= a);
        assert(a.filter(keep) + b.filter(keep) =~= a.filter(keep));
    } else {
        lemma_filter_cat(a, b.drop_last());
        assert((a + b).drop_last() =~= a + b.drop_last());
        assert((a + b).filter(keep) =~= a.filter(keep) + b.filter(keep));
    }
}

/// A text that is not empty is left.
pub proof fn lemma_filter_one(t: Text)
    requires
        t.len() > 0,
    ensures
        seq![t].filter(|p: Text| p.len() > 0) == seq![t],
{
    reveal(Seq::filter);
    let keep = |p: Text| p.len() > 0;
    assert(seq![t].drop_last() =~= Seq::<Text>::empty());
    assert(Seq::<Text>::empty().filter(keep) =~= Seq::empty());
    assert(seq![t].filter(keep) =~= seq![t]);
}

/// A file and a folder of its name name the same instances.
proof fn lemma_flat_names(dir: Text, name: Text)
    requires
        name.len() > 0,
        !name.contains('/'),
        name != "init"@,
        !".client"@.is_suffix_of(name),
        !".server"@.is_suffix_of(name),
    ensures
        names_of(as_folder(dir, name)) == names_of(as_file(dir, name)),
{
    reveal_strlit(".luau");
    reveal_strlit(".client");
    reveal_strlit(".server");
    reveal_strlit("init");
    reveal_strlit("init.luau");
    reveal_strlit("/init.luau");
    let keep = |p: Text| p.len() > 0;
    let lead = text::split(dir, '/').filter(keep);
    let file = name + ".luau"@;
    let init = "init.luau"@;
    assert forall|i: int| 0 <= i < file.len() implies file[i] != '/' by {
        if i < name.len() && name[i] == '/' {
            assert(name.contains('/'));
        }
    }
    assert forall|i: int| 0 <= i < name.len() implies name[i] != '/' by {
        if name[i] == '/' {
            assert(name.contains('/'));
        }
    }
    text::lemma_split_plain(file, '/');
    text::lemma_split_plain(name, '/');
    text::lemma_split_plain(init, '/');
    text::lemma_split_cat(dir, '/', file);
    assert(as_file(dir, name) =~= dir.push('/') + file);
    text::lemma_split_cat(dir, '/', name);
    text::lemma_split_cat(dir.push('/') + name, '/', init);
    assert(as_folder(dir, name) =~= (dir.push('/') + name).push('/') + init);
    lemma_filter_cat(text::split(dir, '/'), seq![file]);
    lemma_filter_one(file);
    lemma_filter_cat(text::split(dir, '/'), seq![name]);
    lemma_filter_one(name);
    lemma_filter_cat(text::split(dir, '/') + seq![name], seq![init]);
    lemma_filter_one(init);
    let a = lead + seq![file];
    let b = lead + seq![name] + seq![init];
    assert(file.subrange(file.len() - 5, file.len() as int) =~= ".luau"@);
    assert(file.take(file.len() - 5) =~= name);
    assert(script_name(file) == Some(name));
    assert(init.subrange(init.len() - 5, init.len() as int) =~= ".luau"@);
    assert(init.take(init.len() - 5) =~= "init"@);
    assert(script_name(init) == Some("init"@));
    assert(a.drop_last().push(name) =~= lead + seq![name]);
    assert(b.drop_last() =~= lead + seq![name]);
}

/// Files that the same entries are above have the same entry to speak for them.
pub proof fn lemma_longest_same(entries: Rows<Seq<Text>>, a: Text, b: Text)
    requires
        forall|i: int|
            0 <= i < entries.len() ==> above(a, (#[trigger] entries[i]).0) == above(
                b,
                entries[i].0,
            ),
    ensures
        longest(entries, a) == longest(entries, b),
    decreases entries.len(),
{
    if entries.len() > 0 {
        let fewer = entries.drop_last();
        assert forall|i: int| 0 <= i < fewer.len() implies above(a, (#[trigger] fewer[i]).0)
            == above(b, fewer[i].0) by {
            assert(fewer[i] == entries[i]);
        }
        lemma_longest_same(fewer, a, b);
        assert(entries[entries.len() - 1] == entries.last());
    }
}

/// What is above a folder is above what the folder holds.
pub proof fn lemma_above_deeper(dir: Text, more: Text, disk: Text)
    requires
        above(dir, disk),
    ensures
        above(dir.push('/') + more, disk),
        (dir.push('/') + more).skip(disk.len() as int) == dir.skip(disk.len() as int).push('/')
            + more,
{
    let rel = dir.push('/') + more;
    let p = disk.push('/');
    if dir == disk {
        assert(rel.subrange(0, p.len() as int) =~= p);
    } else {
        assert(dir.subrange(0, p.len() as int) == p);
        assert(rel.subrange(0, p.len() as int) =~= dir.subrange(0, p.len() as int));
    }
    assert(rel.skip(disk.len() as int) =~= dir.skip(disk.len() as int).push('/') + more);
}

/// A folder with an `init.luau` is the same instance as a file of its name, so a
/// module can be moved from one to the other and no require changes. This is
/// so where the map knows neither of them but through a folder above, and where
/// the name does not pick a class of script.
pub proof fn law_flat_is_the_same_instance(entries: Rows<Seq<Text>>, dir: Text, name: Text)
    requires
        name.len() > 0,
        !name.contains('/'),
        !name.contains('\\'),
        !dir.contains('\\'),
        name != "init"@,
        !".client"@.is_suffix_of(name),
        !".server"@.is_suffix_of(name),
        forall|i: int|
            0 <= i < entries.len() && (above(as_folder(dir, name), (#[trigger] entries[i]).0)
                || above(as_file(dir, name), entries[i].0)) ==> above(dir, entries[i].0),
    ensures
        path_of(entries, as_folder(dir, name)) == path_of(entries, as_file(dir, name))
            || path_of(entries, as_folder(dir, name)) is Err && path_of(
            entries,
            as_file(dir, name),
        ) is Err,
{
    reveal_strlit("/init.luau");
    reveal_strlit(".luau");
    let a = as_folder(dir, name);
    let b = as_file(dir, name);
    let more_a = name + "/init.luau"@;
    let more_b = name + ".luau"@;
    assert(a =~= dir.push('/') + more_a);
    assert(b =~= dir.push('/') + more_b);
    assert forall|i: int| 0 <= i < name.len() implies name[i] != '\\' by {
        if name[i] == '\\' {
            assert(name.contains('\\'));
        }
    }
    assert forall|i: int| 0 <= i < dir.len() implies dir[i] != '\\' by {
        if dir[i] == '\\' {
            assert(dir.contains('\\'));
        }
    }
    assert(text::slashes(a) =~= a);
    assert(text::slashes(b) =~= b);
    assert forall|i: int| 0 <= i < entries.len() implies above(a, (#[trigger] entries[i]).0)
        == above(b, entries[i].0) by {
        if above(dir, entries[i].0) {
            lemma_above_deeper(dir, more_a, entries[i].0);
            lemma_above_deeper(dir, more_b, entries[i].0);
        }
    }
    lemma_longest_same(entries, a, b);
    law_most_specific(entries, a);
    if let Some((disk, trail)) = longest(entries, a) {
        let k = choose|k: int| 0 <= k < entries.len() && entries[k] == (disk, trail);
        assert(above(a, entries[k].0));
        lemma_above_deeper(dir, more_a, disk);
        lemma_above_deeper(dir, more_b, disk);
        let rest = dir.skip(disk.len() as int);
        lemma_flat_names(rest, name);
        assert(as_folder(rest, name) =~= rest.push('/') + more_a);
        assert(as_file(rest, name) =~= rest.push('/') + more_b);
    }
}

} // verus!
