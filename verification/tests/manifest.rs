use modux::layout::Layout;
use modux::manifest::{
    emit, emit_libs, emit_module_list, entry, validate, ManifestError, Shelved,
};
use modux::module::Module;
use modux::rojo::{MapError, RojoMap, Side};
use modux::table::Table;

const PROJECT: &str = r#"{ "tree": {
    "ServerScriptService": { "server": { "$path": "src/server" } },
    "StarterPlayer": { "client": { "$path": "src/client" } },
    "ReplicatedStorage": { "shared": { "$path": "src/shared" }, "Libs": { "$path": "src/Libs" } },
    "ServerStorage": { "Types": { "$path": "src/ModuxTypes/server" } },
    "StarterGui": { "Types": { "$path": "src/ModuxTypes/client" } },
    "ReplicatedFirst": { "Types": { "$path": "src/ModuxTypes/shared" } }
} }"#;

fn map() -> RojoMap {
    RojoMap::read("default.project.json", PROJECT).unwrap()
}

fn module(id: &str, kind: &str, file: &str, required: &[&str]) -> Module {
    Module {
        id: id.to_string(),
        kind: kind.to_string(),
        file: file.to_string(),
        services: Vec::new(),
        requires: Vec::new(),
        local_types: Vec::new(),
        methods: Vec::new(),
        fields: Vec::new(),
        dependencies: Vec::new(),
        declared_require: required.iter().map(|r| r.to_string()).collect(),
        issues: Vec::new(),
    }
}

fn modules() -> Vec<Module> {
    vec![
        module("Shop", "Service", "src/server/Shop.luau", &["Door"]),
        module("Hud", "Controller", "src/client/Hud/init.luau", &[]),
        module("Door", "Component", "src/shared/Door.luau", &[]),
    ]
}

fn sides(modules: &[Module]) -> Table<Side> {
    validate(modules, &map()).unwrap()
}

fn fault(modules: &[Module]) -> ManifestError {
    validate(modules, &map()).err().unwrap()
}

#[test]
fn modules_that_go_together() {
    let all = modules();
    let sides = sides(&all);
    assert_eq!(sides.len(), 3);
    assert_eq!(sides.get("Shop"), Some(&Side::Server));
    assert_eq!(sides.get("Hud"), Some(&Side::Client));
    assert_eq!(sides.get("Door"), Some(&Side::Shared));
    assert_eq!(sides.key(0), "Door");
    assert!(sides.get("Nobody").is_none());
}

/// Several modules may stand in one folder: their leaves are told apart by id.
#[test]
fn modules_side_by_side_in_a_folder() {
    let all = vec![
        module("A", "Service", "src/server/A.luau", &[]),
        module("B", "Service", "src/server/B.luau", &["A"]),
    ];
    assert_eq!(sides(&all).len(), 2);
}

#[test]
fn two_modules_with_one_id() {
    let mut all = modules();
    all.push(module("Hud", "Controller", "src/client/Again.luau", &[]));
    let e = fault(&all);
    assert!(matches!(e, ManifestError::Duplicate { .. }));
    assert_eq!(
        e.message(),
        "duplicate ID \"Hud\" in src/client/Hud/init.luau and src/client/Again.luau"
    );
}

/// Two ids that name the same file would write over one another.
#[test]
fn two_modules_with_one_leaf() {
    let mut all = modules();
    all.push(module("./Shop", "Service", "src/server/Other.luau", &[]));
    let e = fault(&all);
    assert!(matches!(e, ManifestError::SameLeaf { .. }));
    assert_eq!(
        e.message(),
        "src/server/Shop.luau and src/server/Other.luau would both write \
         ModuxTypes/server/./Shop.luau.\n  \
         A type leaf is named after the ID of its module: give one of them another ID."
    );
    // On two sides they are two files.
    let mut all = modules();
    all.push(module("./Shop", "Controller", "src/client/Other.luau", &[]));
    assert_eq!(sides(&all).len(), 4);
}

/// An id is shown as a string literal would be.
#[test]
fn an_id_in_quotes() {
    let all = vec![
        module("a\"\n", "Service", "x", &[]),
        module("a\"\n", "Service", "y", &[]),
    ];
    assert_eq!(fault(&all).message(), "duplicate ID \"a\\\"\\n\" in x and y");
}

#[test]
fn a_module_without_a_place() {
    let all = vec![module("A", "Service", "lib/A.luau", &[])];
    let e = fault(&all);
    assert!(matches!(e, ManifestError::Place(MapError::Outside { .. })));
    assert_eq!(e.message(), "path outside default.project.json: lib/A.luau");
}

#[test]
fn a_require_of_nothing() {
    let mut all = modules();
    all[1].declared_require.push("Ghost".to_string());
    let e = fault(&all);
    assert!(matches!(e, ManifestError::Missing { .. }));
    assert_eq!(
        e.message(),
        "[Manifest] src/client/Hud/init.luau requires \"Ghost\", which does not exist. \
         Available: Door, Hud, Shop"
    );
}

#[test]
fn a_require_across_the_network() {
    let mut all = modules();
    all[1].declared_require.push("Shop".to_string());
    let e = fault(&all);
    assert!(matches!(e, ManifestError::Unseen { .. }));
    assert_eq!(
        e.message(),
        "[Manifest] src/client/Hud/init.luau is client and requires \"Shop\", which is server.\n  \
         client cannot see server — move one of them, or go through the network.\n  \
         (Shop is in src/server/Shop.luau)"
    );
    let mut all = modules();
    all[2].declared_require.push("Hud".to_string());
    assert!(matches!(fault(&all), ManifestError::Unseen { .. }));
}

#[test]
fn the_manifest_of_the_server() {
    let all = modules();
    let text = emit(Side::Server, &all, &sides(&all), &map(), &Layout::rogen("src"))
        .unwrap()
        .unwrap();
    assert_eq!(
        text,
        r#"--!strict

local ReplicatedFirst = game:GetService("ReplicatedFirst")
local ServerStorage = game:GetService("ServerStorage")
local Shop = require(ServerStorage.Types.Shop)
local Door = require(ReplicatedFirst.Types.Door)

export type AllServices = {
	Shop: Shop.Public,
}

export type AllComponents = {
	Door: Door.Public,
}

export type ComponentAccess = {
	Door: {
		Get: (self: any, instance: Instance) -> Door.Public?,
		Create: (self: any, instance: Instance) -> Door.Public,
		All: (self: any) -> { Door.Public },
		Destroy: (self: any, instance: Instance) -> (),
	},
}

return {}
"#
    );
    assert_eq!(entry(&all[0]), "Shop.Public");
}

#[test]
fn a_manifest_of_nothing() {
    let text = emit(Side::Client, &[], &sides(&[]), &map(), &Layout::rogen("src"))
        .unwrap()
        .unwrap();
    assert_eq!(
        text,
        "--!strict\n\n\n\nexport type AllControllers = {}\n\nexport type AllComponents = {}\n\n\
         export type ComponentAccess = {}\n\nreturn {}\n"
    );
    let text = emit(Side::Shared, &[], &sides(&[]), &map(), &Layout::rogen("src"))
        .unwrap()
        .unwrap();
    assert_eq!(text, "--!strict\n\n\n\nexport type ComponentAccess = {}\n\nreturn {}\n");
}

#[test]
fn a_leaf_without_a_place() {
    let all = modules();
    let e = emit(Side::Server, &all, &sides(&all), &map(), &Layout::rogen("other")).unwrap_err();
    assert_eq!(
        e.message(),
        "path outside default.project.json: other/ModuxTypes/server/Shop.luau"
    );
}

#[test]
fn the_module_list_of_the_client() {
    let all = modules();
    let text = emit_module_list(Side::Client, &all, &sides(&all), &map()).unwrap().unwrap();
    assert_eq!(
        text,
        "--!strict\n\nlocal ReplicatedStorage = game:GetService(\"ReplicatedStorage\")\n\
         local StarterPlayer = game:GetService(\"StarterPlayer\")\n\nreturn {\n\
         \tStarterPlayer.client.Hud,\n\tReplicatedStorage.shared.Door,\n} :: { ModuleScript }\n"
    );
    let other = RojoMap::read("p", "{\"tree\": {\"A\": {\"$path\": \"a\"}}}").unwrap();
    assert!(emit_module_list(Side::Client, &all, &sides(&all), &other).is_err());
}

#[test]
fn the_libraries() {
    let found = vec![
        ("Signal.luau".to_string(), Shelved::File),
        ("Promise".to_string(), Shelved::Package),
        ("notes.txt".to_string(), Shelved::File),
        ("Empty".to_string(), Shelved::Folder),
        (".luau".to_string(), Shelved::File),
    ];
    let text = emit_libs("/game", "src/Libs", &found, &map()).unwrap();
    assert_eq!(
        text,
        r#"--!strict

local ReplicatedStorage = game:GetService("ReplicatedStorage")
local Promise = require(ReplicatedStorage.Libs.Promise)
local Signal = require(ReplicatedStorage.Libs.Signal)

export type Api = {
	Promise: typeof(Promise),
	Signal: typeof(Signal),
}

return {
	Promise = Promise,
	Signal = Signal,
} :: Api
"#
    );
    // A library that is taken out is gone from the list.
    let fewer = vec![("Signal.luau".to_string(), Shelved::File)];
    let text = emit_libs("/game", "src/Libs", &fewer, &map()).unwrap();
    assert!(!text.contains("Promise") && text.contains("\tSignal: typeof(Signal),\n"));
    assert_eq!(
        emit_libs("/game", "src/Libs", &Vec::new(), &map()).unwrap(),
        "--!strict\n\nexport type Api = {}\n\nreturn {} :: Api\n"
    );
    let e = emit_libs("/game", "Libs", &found, &map()).unwrap_err();
    assert_eq!(e.message(), "path outside default.project.json: Libs/Promise/init.luau");
}

#[test]
fn the_order_of_the_modules_does_not_matter() {
    let mut all = modules();
    let first = sides(&all);
    all.reverse();
    let second = sides(&all);
    assert_eq!(first.len(), second.len());
    for m in &all {
        assert_eq!(first.get(&m.id), second.get(&m.id));
    }
    all.push(module("Hud", "Service", "src/server/Hud.luau", &[]));
    assert!(matches!(fault(&all), ManifestError::Duplicate { .. }));
    all.reverse();
    assert!(matches!(fault(&all), ManifestError::Duplicate { .. }));
}
