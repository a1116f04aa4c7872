use modux::emit::leaf_path;
use modux::extract::Extractor;
use modux::layout::Layout;
use modux::manifest::{validate, Shelved};
use modux::module::{Duplicate, Module};
use modux::pass::{
    check_leaf_collisions, check_stale, differs, expected, leaf, line_of_module, paths,
    say_collision, stale_leaves,
};
use modux::plan::{files, plan, Plan, What};
use modux::rojo::{RojoMap, Side};
use modux::scan::lies_within;
use modux::source::Source;
use modux::state::{Stamp, State};
use modux::table::Table;
use modux::watch::{diff, is_awaited, tree_moved, unchanged, upkeep, Change, Upkeep};

const PROJECT: &str = r#"{ "tree": {
    "ServerScriptService": { "server": { "$path": "src/server" } },
    "ReplicatedStorage": { "shared": { "$path": "src/shared" } },
    "ServerStorage": { "Types": { "$path": "src/ModuxTypes/server" } },
    "ReplicatedFirst": { "Types": { "$path": "src/ModuxTypes/shared" } }
} }"#;

fn module(id: &str, file: &str) -> Module {
    let mut m = Extractor::new(file, &format!("local M = C.Service('{id}')\nfunction M:Go() end"))
        .run()
        .unwrap();
    m.file = file.to_string();
    m
}

fn modules() -> Vec<Module> {
    vec![module("Shop", "src/server/Shop.luau"), module("Util", "src/shared/Util.luau")]
}

fn map() -> RojoMap {
    RojoMap::read("default.project.json", PROJECT).unwrap()
}

fn list(items: &[&str]) -> Vec<String> {
    items.iter().map(|i| i.to_string()).collect()
}

#[test]
fn all_that_is_written() {
    assert_eq!(
        paths(&Layout::rogen("src")),
        [
            "src/Modux/client/Manifest/init.luau",
            "src/Modux/server/Manifest/init.luau",
            "src/Modux/client/Modules.luau",
            "src/Modux/server/Modules.luau",
            "src/ModuxTypes/client",
            "src/ModuxTypes/server",
            "src/ModuxTypes/shared",
            "src/Modux/shared/Libs.luau",
        ]
    );
}

/// A leaf lies in a folder that counts as written by the generator.
#[test]
fn leaves_are_generated() {
    for layout in [Layout::rogen("src"), Layout::mirror("/sync/")] {
        for side in [Side::Client, Side::Server, Side::Shared] {
            let leaf = leaf_path(&layout, side, "Foo");
            assert!(lies_within(&leaf, &paths(&layout)), "{leaf}");
        }
    }
}

#[test]
fn a_check_after_a_pass_finds_nothing() {
    let all = modules();
    let sides = validate(&all, &map()).unwrap();
    let layout = Layout::rogen("src");
    let shelved: Vec<(String, Shelved)> = Vec::new();
    let files = expected("/g", &all, &sides, &map(), &layout, &shelved).unwrap();
    let names: Vec<&str> = files.iter().map(|f| f.0.as_str()).collect();
    assert_eq!(
        names,
        [
            "src/ModuxTypes/server/Shop.luau",
            "src/ModuxTypes/shared/Util.luau",
            "src/Modux/client/Manifest/init.luau",
            "src/Modux/server/Manifest/init.luau",
            "src/Modux/client/Modules.luau",
            "src/Modux/server/Modules.luau",
            "src/Modux/shared/Libs.luau",
        ]
    );
    let (file, text) = leaf(&all[0], &sides, &map(), &layout).unwrap();
    assert_eq!((file, text), files[0].clone());

    let mut disk: Vec<Option<String>> = files.iter().map(|f| Some(f.1.clone())).collect();
    assert!(check_stale(&files, &disk).is_empty());
    disk[1] = None;
    disk[4] = Some("old".to_string());
    assert_eq!(
        check_stale(&files, &disk),
        ["src/ModuxTypes/shared/Util.luau", "src/Modux/client/Modules.luau"]
    );
    assert_eq!(check_stale(&files, &Vec::new()).len(), 7);
    assert!(differs(&None, "a") && differs(&Some("b".to_string()), "a"));
    assert!(!differs(&Some("a".to_string()), "a"));
}

#[test]
fn a_pass_without_a_place_is_refused() {
    let all = modules();
    let sides = validate(&all, &map()).unwrap();
    let none: Vec<(String, Shelved)> = Vec::new();
    let e = expected("/g", &all, &sides, &map(), &Layout::rogen("lib"), &none).unwrap_err();
    assert_eq!(
        e.message(),
        "path outside default.project.json: lib/ModuxTypes/shared/Util.luau"
    );
    let other = RojoMap::read("p", "{\"tree\": {\"A\": {\"$path\": \"a\"}}}").unwrap();
    assert!(leaf(&all[0], &sides, &other, &Layout::rogen("src")).is_err());
    let libs = vec![("X.luau".to_string(), Shelved::File)];
    assert!(expected("/g", &all, &sides, &map(), &Layout::rogen("src"), &libs).is_err());
}

/// Leaves whose module is gone go; those of modules stay.
#[test]
fn leaves_of_no_module_are_swept() {
    let all = modules();
    let sides = validate(&all, &map()).unwrap();
    let layout = Layout::rogen("src");
    let listing = list(&[
        "src/ModuxTypes/server/Shop.luau",
        "src/ModuxTypes/server/Gone.luau",
        "src/ModuxTypes/client/Shop.luau",
        "src/ModuxTypes/shared/notes.txt",
    ]);
    assert_eq!(
        stale_leaves(&listing, &all, &sides, &layout),
        ["src/ModuxTypes/server/Gone.luau", "src/ModuxTypes/client/Shop.luau"]
    );
}

#[test]
fn a_folder_that_became_the_leaves_own() {
    let all = modules();
    let sides = validate(&all, &map()).unwrap();
    let layout = Layout::rogen("src");
    let fine = list(&[
        "/g/src/server/Shop.luau",
        "/g/src/ModuxTypes/server/Shop.luau",
        "/g/src/outside.luau",
    ]);
    assert!(check_leaf_collisions("/g", &all, &sides, &map(), &layout, &fine).is_none());

    let merged = RojoMap::read(
        "p",
        r#"{ "tree": {
            "ServerScriptService": { "server": { "$path": "src/server" } },
            "ReplicatedStorage": { "shared": { "$path": "src/shared" } },
            "ServerStorage": { "Types": {
                "$path": "src/ModuxTypes/server",
                "Mine": { "$path": "src/mine" } } }
        } }"#,
    )
    .unwrap();
    let files = list(&["/g/src/mine/readme.md", "/g/src/server/Shop.luau", "/g/src/mine/x.luau"]);
    let c = check_leaf_collisions("/g", &all, &sides, &merged, &layout, &files).unwrap();
    assert_eq!(c.instance, "ServerStorage.Types");
    assert_eq!(c.dir, "src/ModuxTypes/server");
    assert_eq!(c.file, "/g/src/mine/x.luau");
    assert_eq!(
        say_collision("src/ModuxTypes/server", "src/mine/x.luau", "ServerStorage.Types"),
        "src/ModuxTypes/server e src/mine/x.luau viram a MESMA instancia (ServerStorage.Types).\n  \
         Quando duas pastas se fundem e ha nome repetido, uma some do project file sem aviso.\n  \
         Renomeie a pasta do projeto, ou o modulo."
    );
}

#[test]
fn a_module_in_the_listing() {
    let mut m = module("Shop", "src/server/Shop.luau");
    assert_eq!(line_of_module(&m), "Shop         Service    src/server/Shop.luau  deps: -");
    m.declared_require = list(&["A", "B"]);
    m.id = "AVeryLongIdentifier".to_string();
    assert_eq!(
        line_of_module(&m),
        "AVeryLongIdentifier Service    src/server/Shop.luau  deps: A, B"
    );
}

fn state() -> State {
    let source = Source::from(None, false, "/g");
    State::new("/g", &source, PROJECT, Layout::rogen("src")).ok().unwrap()
}

fn stamp(n: i128) -> Option<Stamp> {
    Some(Stamp { modified: n, size: 10 })
}

/// What was read is given back until the file changes.
#[test]
fn modules_are_remembered() {
    let mut s = state();
    let path = "/g/src/server/Shop.luau";
    let other = "/g/src/shared/Util.luau";
    assert!(s.cached(path, stamp(1)).is_none());
    let m = s.extract(path, stamp(1), "local M = C.Service('Shop')").unwrap();
    assert_eq!(m.file, "src/server/Shop.luau");
    assert_eq!(s.cached(path, stamp(1)).unwrap().id, "Shop");
    assert!(s.cached(path, stamp(2)).is_none());
    assert!(s.cached(path, None).is_none());
    assert!(s.cached(other, stamp(1)).is_none());
    s.extract(other, None, "local M = C.Service('Util')").unwrap();
    assert!(s.cached(other, None).is_none());
    assert_eq!(s.fresh(&list(&[path, other])), [other]);

    let e = s.extract(path, stamp(3), "return nil").unwrap_err();
    assert_eq!(e.message(), "/g/src/server/Shop.luau: no call to Controller, Service or Component found");
    assert_eq!(s.cached(path, stamp(1)).unwrap().id, "Shop");

    let file = Extractor::new(other, "local M = C.Component('Door')");
    assert_eq!(s.keep(stamp(4), file).unwrap().duplicate().id, "Door");
    s.retain(&list(&[other]));
    assert!(s.cached(path, stamp(1)).is_none());
    assert_eq!(s.cached(other, stamp(4)).unwrap().kind, "Component");

    s.reload(RojoMap::read("p", "{\"tree\": {}}").unwrap());
    assert!(s.cached(other, stamp(4)).is_none());
    assert!(s.map.path("src/server/Shop.luau").is_err());
    assert_eq!(s.rel("/g/src\\x"), "src/x");
    assert_eq!(s.rel("/h/x"), "/h/x");
}

#[test]
fn a_state_needs_a_map() {
    let source = Source::from(Some("s.json"), false, "/g");
    let e = State::new("/g", &source, "{}", Layout::mirror("sync")).err().unwrap();
    assert_eq!(e.message(), "/g/s.json has no filePaths; is it a sourcemap?");
}

fn look(items: &[(&str, i128)]) -> Table<Stamp> {
    let mut t: Table<Stamp> = Table::new();
    for (path, n) in items {
        t.put(path, Stamp { modified: *n, size: 1 });
    }
    t
}

#[test]
fn what_changed_between_two_looks() {
    let a = look(&[("s/a-b/x", 1), ("s/a/x", 1), ("s/b", 1)]);
    let b = look(&[("s/a-b/x", 2), ("s/a/y", 1), ("s/b", 1)]);
    assert!(unchanged(&a, &a));
    assert!(!unchanged(&a, &b));
    assert!(diff(&a, &a).is_empty());
    let found = diff(&a, &b);
    let shown: Vec<(&str, &str)> =
        found.iter().map(|(c, p)| (c.label(), p.as_str())).collect();
    assert_eq!(shown, [("deleted", "s/a/x"), ("new", "s/a/y"), ("changed", "s/a-b/x")]);
    assert!(tree_moved(&found));
    assert!(!tree_moved(&vec![(Change::Changed, "x".to_string())]));
    assert!(!tree_moved(&Vec::new()));
    assert!(!unchanged(&a, &look(&[("s/a-b/x", 1)])));
}

#[test]
fn what_becomes_of_the_sourcemap() {
    assert_eq!(upkeep(false, true, true, true, true), Upkeep::Leave);
    assert_eq!(upkeep(true, true, false, false, true), Upkeep::Rebuild);
    assert_eq!(upkeep(true, false, true, false, true), Upkeep::Rebuild);
    assert_eq!(upkeep(true, false, true, false, false), Upkeep::Touch);
    assert_eq!(upkeep(true, true, false, true, false), Upkeep::Touch);
    assert_eq!(upkeep(true, false, false, true, true), Upkeep::Touch);
    assert_eq!(upkeep(true, false, false, false, true), Upkeep::Leave);
}

#[test]
fn errors_to_wait_out() {
    assert!(is_awaited(true, "path outside default.project.json: x"));
    assert!(!is_awaited(false, "path outside default.project.json: x"));
    assert!(!is_awaited(true, "duplicate"));
}

const WHOLE: &str = r#"{ "tree": {
    "ServerScriptService": { "server": { "$path": "src/server" } },
    "ReplicatedStorage": { "shared": { "$path": "src/shared" }, "M": { "$path": "src/Modux" } },
    "ServerStorage": { "Types": { "$path": "src/ModuxTypes/server" } },
    "StarterGui": { "Types": { "$path": "src/ModuxTypes/client" } },
    "ReplicatedFirst": { "Types": { "$path": "src/ModuxTypes/shared" } }
} }"#;

type Files = std::collections::BTreeMap<String, String>;

fn planned(files_on_disk: &Files, all: &[Module], fresh: &[bool], project: &str) -> Plan {
    let map = RojoMap::read("default.project.json", project).unwrap();
    let layout = Layout::rogen("src");
    let sides = validate(all, &map).unwrap();
    let fresh = fresh.to_vec();
    let mut on_disk: Table<String> = Table::new();
    for file in files(all, &fresh, &sides, &layout) {
        if let Some(text) = files_on_disk.get(&file) {
            on_disk.put(&file, text.clone());
        }
    }
    let listing: Vec<String> =
        files_on_disk.keys().filter(|f| f.starts_with("src/ModuxTypes/")).cloned().collect();
    plan("/g", all, &fresh, &sides, &map, &layout, &Vec::new(), &listing, &on_disk)
}

fn carried_out(files_on_disk: &mut Files, todo: &Plan) {
    for effect in &todo.effects {
        match &effect.text {
            Some(text) => files_on_disk.insert(effect.file.clone(), text.clone()),
            None => files_on_disk.remove(&effect.file),
        };
    }
}

fn named(todo: &Plan) -> Vec<(What, &str)> {
    todo.effects.iter().map(|e| (e.what, e.file.as_str())).collect()
}

#[test]
fn the_steps_of_a_pass() {
    let all = modules();
    let mut disk = Files::new();
    disk.insert("src/ModuxTypes/server/Gone.luau".to_string(), "old".to_string());
    disk.insert("src/ModuxTypes/server/notes.txt".to_string(), "kept".to_string());
    disk.insert("src/ModuxTypes/server/Shop.luau".to_string(), "old".to_string());
    let todo = planned(&disk, &all, &[true, true], WHOLE);
    assert!(todo.fault.is_none());
    assert!(todo.changed());
    assert_eq!(
        named(&todo),
        [
            (What::Leaf, "src/ModuxTypes/server/Shop.luau"),
            (What::Leaf, "src/ModuxTypes/shared/Util.luau"),
            (What::Stale, "src/ModuxTypes/server/Gone.luau"),
            (What::Manifest(Side::Client), "src/Modux/client/Manifest/init.luau"),
            (What::Manifest(Side::Server), "src/Modux/server/Manifest/init.luau"),
            (What::List(Side::Client), "src/Modux/client/Modules.luau"),
            (What::List(Side::Server), "src/Modux/server/Modules.luau"),
            (What::Libs, "src/Modux/shared/Libs.luau"),
        ]
    );
    let map = RojoMap::read("default.project.json", WHOLE).unwrap();
    let sides = validate(&all, &map).unwrap();
    let (_, text) = leaf(&all[0], &sides, &map, &Layout::rogen("src")).unwrap();
    assert_eq!(todo.effects[0].text.as_ref().unwrap(), &text);
    assert!(todo.effects[2].text.is_none());
}

#[test]
fn only_the_modules_that_were_read_have_their_leaves_written() {
    let all = modules();
    let leaves = |fresh: &[bool]| -> Vec<String> {
        planned(&Files::new(), &all, fresh, WHOLE)
            .effects
            .into_iter()
            .filter(|e| e.what == What::Leaf)
            .map(|e| e.file)
            .collect()
    };
    let shop = "src/ModuxTypes/server/Shop.luau";
    let util = "src/ModuxTypes/shared/Util.luau";
    assert_eq!(leaves(&[true, true]), [shop, util]);
    assert_eq!(leaves(&[false, true]), [util]);
    assert_eq!(leaves(&[true]), [shop]);
    assert!(leaves(&[false, false]).is_empty());
}

#[test]
fn a_second_pass_changes_nothing_and_a_check_is_clean() {
    let all = modules();
    let mut disk = Files::new();
    disk.insert("src/ModuxTypes/server/Gone.luau".to_string(), "old".to_string());
    disk.insert("src/ModuxTypes/server/Shop.luau".to_string(), "old".to_string());
    let first = planned(&disk, &all, &[true, true], WHOLE);
    carried_out(&mut disk, &first);
    assert!(!disk.contains_key("src/ModuxTypes/server/Gone.luau"));
    assert!(!planned(&disk, &all, &[false, false], WHOLE).changed());
    assert!(!planned(&disk, &all, &[true, true], WHOLE).changed());
    let map = RojoMap::read("default.project.json", WHOLE).unwrap();
    let sides = validate(&all, &map).unwrap();
    let want = expected("/g", &all, &sides, &map, &Layout::rogen("src"), &Vec::new()).unwrap();
    let on_disk: Vec<Option<String>> =
        want.iter().map(|(file, _)| disk.get(file).cloned()).collect();
    assert!(check_stale(&want, &on_disk).is_empty());
}

/// The leaves are written although the Manifest cannot be: a folder that is not in
/// the project file gets there because there is something in it.
#[test]
fn a_pass_that_stops_has_written_the_leaves() {
    let all = modules();
    let project = WHOLE.replace("src/ModuxTypes/shared", "elsewhere");
    let todo = planned(&Files::new(), &all, &[true, true], &project);
    assert!(todo.fault.unwrap().message().contains("outside"));
    let kinds: Vec<What> = todo.effects.iter().map(|e| e.what).collect();
    assert_eq!(kinds, [What::Leaf, What::Leaf]);
}

#[test]
fn every_file_has_a_place_of_its_own() {
    let all = modules();
    let map = RojoMap::read("default.project.json", WHOLE).unwrap();
    let sides = validate(&all, &map).unwrap();
    let want = expected("/g", &all, &sides, &map, &Layout::rogen("src"), &Vec::new()).unwrap();
    let places: std::collections::BTreeSet<&String> = want.iter().map(|(file, _)| file).collect();
    assert_eq!(places.len(), want.len());
    assert_eq!(want.len(), all.len() + 5);
}
