use modux::emit::{cites, cites_alias, emit, has_word, leaf_path, reindent, rewrite_require};
use modux::layout::Layout;
use modux::module::{Field, Import, LocalType, Method, Module, Service};
use modux::rojo::Side;

fn s(v: &str) -> Vec<String> {
    vec![v.to_string()]
}

fn module(kind: &str) -> Module {
    Module {
        id: "Zombie".to_string(),
        kind: kind.to_string(),
        file: "src/Zombie.luau".to_string(),
        services: Vec::new(),
        requires: Vec::new(),
        local_types: Vec::new(),
        methods: Vec::new(),
        fields: Vec::new(),
        dependencies: Vec::new(),
        declared_require: Vec::new(),
        issues: Vec::new(),
    }
}

fn field(name: &str, ty: &str) -> Field {
    Field { name: name.to_string(), ty: ty.to_string() }
}

fn local(name: &str, text: &str) -> LocalType {
    LocalType { name: name.to_string(), text: text.to_string() }
}

fn import(alias: &str, expr: &str) -> Import {
    Import { alias: alias.to_string(), expr: expr.to_string() }
}

#[test]
fn alias_through_a_dot() {
    assert!(cites_alias(&s("Signal.Signal<Player>"), "Signal"));
    assert!(cites_alias(&s("{ a: Lib.Thing, b: number }"), "Lib"));
}

#[test]
fn alias_alone_inside_typeof() {
    assert!(cites_alias(&s("typeof(Template)"), "Template"));
    assert!(cites_alias(&s("{ data: typeof(Template)? }"), "Template"));
}

#[test]
fn a_bare_mention_is_not_a_citation() {
    assert!(!cites_alias(&s("(Template) -> ()"), "Template"));
    assert!(!cites_alias(&s("Templated.Thing"), "Template"));
}

#[test]
fn an_alias_with_white_space_around() {
    assert!(cites_alias(&s("Lib  .Thing"), "Lib"));
    assert!(cites_alias(&s("typeof( Lib )"), "Lib"));
    assert!(!cites_alias(&s("xLib.Thing"), "Lib"));
    assert!(cites_alias(&s("_Lib.Thing"), "Lib"));
    assert!(!cites_alias(&Vec::new(), "Lib"));
}

#[test]
fn a_word_stands_alone() {
    assert!(has_word("{ Estado }", "Estado"));
    assert!(has_word("Estado", "Estado"));
    assert!(!has_word("Estados", "Estado"));
    assert!(!has_word("_Estado", "Estado"));
    assert!(has_word("Estados | Estado", "Estado"));
    assert!(!has_word("anything", ""));
    assert!(cites(&vec!["x".to_string(), "y: Estado?".to_string()], "Estado"));
    assert!(!cites(&vec!["x".to_string()], "Estado"));
}

#[test]
fn a_type_over_lines_is_laid_out_again() {
    assert_eq!(reindent("number", "\t"), "number");
    assert_eq!(reindent("", "\t"), "");
    assert_eq!(
        reindent("{\n\t\t\tx: number,\n\n\t\t\t\ty: string,\n\t\t}", "\t"),
        "{\n\t\tx: number,\n\n\t\t\ty: string,\n\t}"
    );
}

/// Where a type was written does not show, and how its lines stand to each other
/// does.
#[test]
fn the_indentation_of_the_source_does_not_show() {
    let flat = "{\n\tx: {\n\t\ty: number,\n\n\t},\n}";
    let deep = "{\n  \t\tx: {\n  \t\t\ty: number,\n  \t\n  \t\t},\n  \t}";
    assert_eq!(reindent(deep, "\t"), reindent(flat, "\t"));
    assert_eq!(reindent(flat, " "), "{\n \tx: {\n \t\ty: number,\n\n \t},\n }");
    assert_eq!(reindent("a\n\t\tb\n", "-"), reindent("a\nb\n", "-"));
}

#[test]
fn a_require_of_the_module_itself() {
    assert_eq!(rewrite_require("script", "A.B.C"), "A.B.C");
    assert_eq!(rewrite_require("script.X", "A.B.C"), "A.B.C.X");
    assert_eq!(rewrite_require("script.Parent.X", "A.B.C"), "A.B.X");
    assert_eq!(rewrite_require("script.Parent.Parent.Parent.Parent", "A.B"), "");
    assert_eq!(rewrite_require("scripts.X", "A.B"), "scripts.X");
    assert_eq!(rewrite_require("Lib.X", "A.B"), "Lib.X");
}

#[test]
fn leaves_by_side_and_id() {
    let rogen = Layout::rogen("src");
    assert_eq!(leaf_path(&rogen, Side::Client, "Foo"), "src/ModuxTypes/client/Foo.luau");
    assert_eq!(leaf_path(&rogen, Side::Server, "Foo"), "src/ModuxTypes/server/Foo.luau");
    assert_eq!(leaf_path(&rogen, Side::Shared, "Bar"), "src/ModuxTypes/shared/Bar.luau");
    let mirror = Layout::mirror("sync");
    assert_eq!(
        leaf_path(&mirror, Side::Client, "Foo"),
        "sync/StarterPlayer/StarterPlayerScripts/client/ModuxTypes/Foo.luau"
    );
    assert_eq!(
        leaf_path(&mirror, Side::Server, "Foo"),
        "sync/ServerScriptService/server/ModuxTypes/Foo.luau"
    );
    assert_eq!(
        leaf_path(&mirror, Side::Shared, "Foo"),
        "sync/ReplicatedStorage/shared/ModuxTypes/Foo.luau"
    );
}

/// A leaf says where it comes from, and that it is not to be edited.
#[test]
fn a_leaf_names_the_file_of_its_module() {
    let mut m = module("Service");
    m.file = "src/Entity/shared/Zombie/init.luau".to_string();
    assert!(emit(&m, "ReplicatedStorage.shared.Entity.Zombie").starts_with(
        "--!strict\n-- GERADO por modux a partir de src/Entity/shared/Zombie/init.luau\n\
         -- NAO EDITAR A MAO: a proxima geracao sobrescreve.\n\n"
    ));
}

#[test]
fn an_empty_module() {
    assert_eq!(
        emit(&module("Service"), "ServerScriptService.Zombie"),
        "--!strict\n-- GERADO por modux a partir de src/Zombie.luau\n-- NAO EDITAR A MAO: a proxima geracao sobrescreve.\n\nexport type Public = {\n}\n\nreturn {}\n"
    );
}

/// A component always has the instance it was built for.
#[test]
fn a_component_has_its_instance() {
    assert_eq!(
        emit(&module("Component"), "A"),
        "--!strict\n-- GERADO por modux a partir de src/Zombie.luau\n-- NAO EDITAR A MAO: a proxima geracao sobrescreve.\n\nexport type Public = {\n\tInstance: Instance,\n}\n\nreturn {}\n"
    );
    let mut m = module("Component");
    m.fields.push(field("Instance", "Model"));
    assert_eq!(
        emit(&m, "A"),
        "--!strict\n-- GERADO por modux a partir de src/Zombie.luau\n-- NAO EDITAR A MAO: a proxima geracao sobrescreve.\n\nexport type Public = {\n\tInstance: Model,\n}\n\nreturn {}\n"
    );
}

/// A local type is copied when something names it, and so is what it names.
#[test]
fn local_types_follow_one_another() {
    let mut m = module("Service");
    m.fields.push(field("State", "A"));
    m.local_types.push(local("C", "type C = number"));
    m.local_types.push(local("B", "type B = { c: C }"));
    m.local_types.push(local("A", "type A = B | nil"));
    m.local_types.push(local("D", "type D = string"));
    assert_eq!(
        emit(&m, "X"),
        "--!strict\n-- GERADO por modux a partir de src/Zombie.luau\n-- NAO EDITAR A MAO: a proxima geracao sobrescreve.\n\ntype A = B | nil\ntype B = { c: C }\ntype C = number\n\n\
         export type Public = {\n\tState: A,\n}\n\nreturn {}\n"
    );
}

/// Types that nothing outside of them names are not copied.
#[test]
fn local_types_that_only_name_each_other_are_left_out() {
    let mut m = module("Service");
    m.fields.push(field("a", "A"));
    m.local_types.push(local("E", "type E = { f: F }"));
    m.local_types.push(local("A", "type A = number"));
    m.local_types.push(local("F", "type F = { e: E }"));
    let text = emit(&m, "ServerScriptService.M");
    assert!(text.contains("type A = number"));
    assert!(!text.contains("type E"));
    assert!(!text.contains("type F"));
}

/// Requires come along when they are reached through, from where they are seen
/// in the game, with the services that they begin with.
#[test]
fn requires_and_their_roots() {
    let mut m = module("Service");
    m.services.push(Service {
        alias: "Storage".to_string(),
        service: "ReplicatedStorage".to_string(),
    });
    m.services.push(Service { alias: "Players".to_string(), service: "Players".to_string() });
    m.requires.push(import("Lib", "Storage.Lib"));
    m.requires.push(import("Mine", "script.Parent.Mine"));
    m.requires.push(import("Unused", "script.Unused"));
    m.fields.push(field("a", "Lib.T"));
    m.fields.push(field("b", "Mine.T"));
    m.methods.push(Method {
        name: "Go".to_string(),
        signature: "(self: Public) -> ()".to_string(),
    });
    assert_eq!(
        emit(&m, "ServerScriptService.server.Zombie"),
        "--!strict\n-- GERADO por modux a partir de src/Zombie.luau\n-- NAO EDITAR A MAO: a proxima geracao sobrescreve.\n\n\
         local Storage = game:GetService(\"ReplicatedStorage\")\n\
         local ServerScriptService = game:GetService(\"ServerScriptService\")\n\
         local Lib = require(Storage.Lib)\n\
         local Mine = require(ServerScriptService.server.Mine)\n\n\
         export type Public = {\n\ta: Lib.T,\n\tb: Mine.T,\n\tGo: (self: Public) -> (),\n}\n\n\
         return {}\n"
    );
}
