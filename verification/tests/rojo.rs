use modux::json::Json;
use modux::rojo::{MapError, RojoMap, Side};

const PROJECT: &str = r#"{
              "name": "Jogo",
              "tree": {
                "$className": "DataModel",
                "ServerScriptService": {
                  "server": { "Vital": { "$path": "src/Vital/server" } }
                },
                "StarterPlayer": {
                  "StarterPlayerScripts": {
                    "client": { "Input": { "$path": "src/Input/client" } }
                  }
                },
                "ReplicatedStorage": {
                  "shared": { "Libs": { "$path": "src/Libs" } }
                }
              }
            }"#;

const SOURCEMAP: &str = r#"{
              "name": "Jogo", "className": "DataModel",
              "children": [
                { "name": "ServerScriptService", "className": "ServerScriptService", "children": [
                  { "name": "server", "className": "Folder", "children": [
                    { "name": "Vital", "className": "Folder", "children": [
                      { "name": "VitalService", "className": "ModuleScript",
                        "filePaths": ["src/Vital/server/VitalService/init.luau"],
                        "children": [
                          { "name": "Type", "className": "ModuleScript",
                            "filePaths": ["src/Vital/server/VitalService/Type.luau"] }
                        ] }
                    ] }
                  ] }
                ] },
                { "name": "StarterPlayer", "className": "StarterPlayer", "children": [
                  { "name": "StarterPlayerScripts", "className": "StarterPlayerScripts", "children": [
                    { "name": "client", "className": "Folder", "children": [
                      { "name": "Input", "className": "Folder", "children": [
                        { "name": "InputController", "className": "ModuleScript",
                          "filePaths": ["src/Input/client/InputController/init.luau"] }
                      ] }
                    ] }
                  ] }
                ] },
                { "name": "ReplicatedStorage", "className": "ReplicatedStorage", "children": [
                  { "name": "shared", "className": "Folder", "children": [
                    { "name": "Libs", "className": "Folder", "children": [
                      { "name": "Charm", "className": "ModuleScript",
                        "filePaths": ["src/Libs/Charm.luau"] }
                    ] }
                  ] }
                ] }
              ]
            }"#;

/// A sourcemap gives the same paths as the project file.
#[test]
fn sourcemap_concorda_com_o_project_file() {
    let a = RojoMap::read("default.project.json", PROJECT).unwrap();
    let b = RojoMap::from_sourcemap("sourcemap.json", SOURCEMAP).unwrap();

    for file in [
        "src/Vital/server/VitalService/init.luau",
        "src/Vital/server/VitalService/Type.luau",
        "src/Input/client/InputController/init.luau",
        "src/Libs/Charm.luau",
    ] {
        assert_eq!(a.path(file).unwrap(), b.path(file).unwrap(), "paths differ for {file}");
        assert_eq!(a.side(file).unwrap(), b.side(file).unwrap(), "sides differ for {file}");
    }

    // A leaf that is not there yet is found through the folder of the init.
    let new = "src/Input/client/InputController/Type.luau";
    assert_eq!(a.path(new).unwrap(), b.path(new).unwrap());
    assert_eq!(
        b.path(new).unwrap(),
        "StarterPlayer.StarterPlayerScripts.client.Input.InputController.Type"
    );
}

#[test]
fn a_raiz_do_sourcemap_nao_entra_no_caminho() {
    let m = RojoMap::from_sourcemap(
        "sourcemap.json",
        r#"{ "name": "NomeDoJogo", "className": "DataModel", "children": [
                 { "name": "ServerScriptService", "className": "ServerScriptService", "children": [
                   { "name": "Foo", "className": "ModuleScript",
                     "filePaths": ["src/Foo/init.luau"] } ] } ] }"#,
    )
    .unwrap();
    let p = "src/Foo/init.luau";
    // With the name of the game in front, the side would be Shared.
    assert_eq!(m.path(p).unwrap(), "ServerScriptService.Foo");
    assert_eq!(m.side(p).unwrap(), Side::Server);
}

/// The name of the root makes no difference.
#[test]
fn the_root_has_no_name() {
    let one = SOURCEMAP.replacen("Jogo", "Um", 1);
    let two = SOURCEMAP.replacen("Jogo", "Outro", 1);
    let a = RojoMap::from_sourcemap("sourcemap.json", &one).unwrap();
    let b = RojoMap::from_sourcemap("sourcemap.json", &two).unwrap();
    let file = "src/Libs/Charm.luau";
    assert_eq!(a.path(file).unwrap(), "ReplicatedStorage.shared.Libs.Charm");
    assert_eq!(a.path(file).unwrap(), b.path(file).unwrap());
}

/// A root that is no DataModel has a name like any other node.
#[test]
fn a_root_that_is_a_folder_is_named() {
    let text = r#"{ "name": "Place", "className": "Folder", "filePaths": ["x.lua"] }"#;
    let m = RojoMap::from_sourcemap("sourcemap.json", text).unwrap();
    assert_eq!(m.path("x.lua").unwrap(), "Place");
    assert_eq!(m.side("x.lua").unwrap(), Side::Shared);
}

#[test]
fn the_most_specific_entry_decides() {
    let text = r#"{ "tree": {
        "ReplicatedStorage": { "$path": "src" },
        "ServerStorage": { "Deep": { "$path": "src/a/b/" } },
        "ServerScriptService": { "Mid": { "$path": { "optional": "src\\a" } } },
        "StarterGui": { "$className": "StarterGui", "Gui": { "$path": { "path": "gui" } } },
        "Nothing": { "$path": 3 }
    } }"#;
    let m = RojoMap::read("default.project.json", text).unwrap();
    assert_eq!(m.path("src/x.luau").unwrap(), "ReplicatedStorage.x");
    assert_eq!(m.path("src/a/x.luau").unwrap(), "ServerScriptService.Mid.x");
    assert_eq!(m.path("src/a/b/x.luau").unwrap(), "ServerStorage.Deep.x");
    assert_eq!(m.path("src\\a\\b\\x.luau").unwrap(), "ServerStorage.Deep.x");
    assert_eq!(m.path("src/a/bc/x.luau").unwrap(), "ServerScriptService.Mid.bc.x");
    assert_eq!(m.path("src/a/b").unwrap(), "ServerStorage.Deep");
    assert_eq!(m.path("gui/Hud.client.luau").unwrap(), "StarterGui.Gui.Hud");
    assert_eq!(m.path("gui/Hud.server.lua").unwrap(), "StarterGui.Gui.Hud");
    assert_eq!(m.path("gui/init.client.luau").unwrap(), "StarterGui.Gui");
    assert_eq!(m.path("gui/notes.txt").unwrap(), "StarterGui.Gui.notes.txt");
    assert_eq!(m.side("src/x.luau").unwrap(), Side::Shared);
    assert_eq!(m.side("src/a/x.luau").unwrap(), Side::Server);
    assert_eq!(m.side("src/a/b/x.luau").unwrap(), Side::Server);
    assert_eq!(m.side("gui/x.luau").unwrap(), Side::Client);
}

/// A folder with an init and a file of its name are the same instance.
#[test]
fn a_flat_module_stays_where_it_was() {
    let m = RojoMap::read("default.project.json", PROJECT).unwrap();
    assert_eq!(
        m.path("src/Vital/server/VitalService/init.luau").unwrap(),
        m.path("src/Vital/server/VitalService.luau").unwrap()
    );
}

#[test]
fn a_file_outside_the_map_is_refused() {
    let m = RojoMap::read("default.project.json", PROJECT).unwrap();
    let e = m.path("lib\\x.luau").unwrap_err();
    assert_eq!(e.message(), "path outside default.project.json: lib/x.luau");
    assert!(matches!(m.side("lib/x.luau"), Err(MapError::Outside { .. })));
}

#[test]
fn a_text_that_is_no_json_is_refused() {
    let e = RojoMap::read("p.json", "{").err().unwrap();
    assert!(matches!(e, MapError::NotJson { .. }));
    assert!(e.message().starts_with("p.json is not valid JSON: EOF"));
    let e = RojoMap::from_sourcemap("s.json", "nope").err().unwrap();
    assert!(e.message().starts_with("s.json is not valid JSON: "));
}

#[test]
fn a_project_file_without_a_tree_is_refused() {
    let e = RojoMap::read("p.json", "{\"name\": \"x\"}").err().unwrap();
    assert_eq!(e.message(), "p.json has no `tree`");
    let e = RojoMap::read("p.json", "[]").err().unwrap();
    assert_eq!(e.message(), "p.json has no `tree`");
    assert!(RojoMap::read("p.json", "{\"tree\": 1}").is_ok());
}

#[test]
fn a_sourcemap_without_files_is_refused() {
    let text = r#"{ "name": "x", "className": "DataModel", "filePaths": ["default.project.json"] }"#;
    let e = RojoMap::from_sourcemap("s.json", text).err().unwrap();
    assert_eq!(e.message(), "s.json has no filePaths; is it a sourcemap?");
}

/// The same map, from a document that is already there.
#[test]
fn a_map_of_a_document() {
    let path = Json::Object(vec![(
        "$path".to_string(),
        Json::Text("src".to_string()),
    )]);
    let tree = Json::Object(vec![
        ("$className".to_string(), Json::Null),
        ("ServerStorage".to_string(), path),
    ]);
    let document = Json::Object(vec![("tree".to_string(), tree)]);
    let m = RojoMap::of_project("p.json", &document).unwrap();
    assert_eq!(m.path("src/a/b.luau").unwrap(), "ServerStorage.a.b");

    let node = Json::Object(vec![
        ("name".to_string(), Json::Text("Foo".to_string())),
        (
            "filePaths".to_string(),
            Json::List(vec![Json::Number("1".to_string()), Json::Text("a/init.lua".to_string())]),
        ),
    ]);
    let m = RojoMap::of_sourcemap("s.json", &node).unwrap();
    assert_eq!(m.path("a/b.luau").unwrap(), "Foo.b");
    assert!(RojoMap::of_sourcemap("s.json", &Json::Bool(true)).is_err());
}

#[test]
fn sides_see_themselves_and_what_is_shared() {
    for side in [Side::Client, Side::Server, Side::Shared] {
        assert!(side.sees(side));
        assert!(side.sees(Side::Shared));
    }
    assert!(!Side::Client.sees(Side::Server));
    assert!(!Side::Server.sees(Side::Client));
    assert!(!Side::Shared.sees(Side::Client));
    assert_eq!(Side::Client.name(), "client");
    assert_eq!(Side::Server.name(), "server");
    assert_eq!(Side::Shared.name(), "shared");
}
