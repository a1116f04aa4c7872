use modux::layout::Layout;
use modux::paths::{
    add_path, file_name, goes_through, holds_luau, is_under, join_path, lengthen, parent,
    same_path, show, sorts_before, strip_base,
};
use modux::source::{climb, layout_for, project_root, Climb, Root, Source};
use modux::table::{add_to, Table};
use modux::text::{comes_before, cut_last, head, join, lines_of, pad, pieces, replace};

#[test]
fn names_and_parents() {
    assert_eq!(file_name("a/b.luau").unwrap(), "b.luau");
    assert_eq!(file_name("a/b/").unwrap(), "b");
    assert_eq!(file_name("a/./").unwrap(), "a");
    assert_eq!(file_name("a/.."), None);
    assert_eq!(file_name("/"), None);
    assert_eq!(file_name(""), None);
    assert_eq!(parent("a/b/c").unwrap(), "a/b");
    assert_eq!(parent("a//b/").unwrap(), "a");
    assert_eq!(parent("a").unwrap(), "");
    assert_eq!(parent("/a").unwrap(), "/");
    assert_eq!(parent("./a").unwrap(), ".");
    assert_eq!(parent("../a").unwrap(), "..");
    assert_eq!(parent("a//b/./c").unwrap(), "a//b");
    assert_eq!(parent("/a/./b//c/").unwrap(), "/a/./b");
    assert_eq!(parent("//a/b").unwrap(), "//a");
    assert_eq!(parent("//a").unwrap(), "/");
    assert_eq!(parent("a/.").unwrap(), "");
    assert_eq!(parent("a/..").unwrap(), "a");
    assert_eq!(parent("/"), None);
    assert_eq!(parent(""), None);
}

#[test]
fn paths_below_a_base() {
    assert!(is_under("/a/b/c", "/a/b"));
    assert!(is_under("/a/b", "/a/b/"));
    assert!(!is_under("/a/bc", "/a/b"));
    assert!(!is_under("a/b", "/a"));
    assert!(is_under("a/b", ""));
    assert_eq!(strip_base("/a/b/c", "/a"), "b/c");
    assert_eq!(strip_base("/a/b/c", "/a/b/c"), "");
    assert_eq!(strip_base("/x/b", "/a"), "/x/b");
    assert_eq!(strip_base("/a//b/./c/", "/a"), "b/./c");
    assert_eq!(strip_base("/a/.//b//c", "/a/"), "b//c");
    assert_eq!(strip_base("./a//b", "."), "a//b");
    assert_eq!(strip_base("a//b/", ""), "a//b");
    assert_eq!(strip_base("//", ""), "/");
    assert_eq!(strip_base("/a", "/"), "a");
    assert_eq!(join_path("/a", &strip_base("/a/b/c", "/a")), "/a/b/c");
    assert_eq!(show("/a", "/a/b\\c"), "b/c");
    assert_eq!(join_path("a", "b"), "a/b");
    assert_eq!(join_path("a/", "b"), "a/b");
    assert_eq!(join_path("", "b"), "b");
    assert_eq!(join_path("a", "/b"), "/b");
    assert!(same_path("a//b/.", "a/b"));
    assert!(!same_path("./a", "a"));
    assert!(goes_through("a/Modux/b", "Modux"));
    assert!(!goes_through("a/ModuxTypes/b", "Modux"));
}

#[test]
fn extensions() {
    assert!(holds_luau("a/b.luau"));
    assert!(holds_luau("b.client.luau"));
    assert!(!holds_luau("a/.luau"));
    assert!(!holds_luau("a/luau"));
    assert!(!holds_luau("a.luau/b"));
    assert_eq!(lengthen("src/Foo", ".luau"), "src/Foo.luau");
    assert_eq!(lengthen("src/Foo.bar", ".luau"), "src/Foo.bar.luau");
    assert_eq!(lengthen("src/.foo/", ".luau"), "src/.foo.luau");
    assert_eq!(lengthen("src//./Foo/", ".luau"), "src//./Foo.luau");
    assert_eq!(lengthen("/", ".luau"), "/");
}

#[test]
fn the_order_of_paths() {
    assert!(sorts_before("a/x", "a-b/x"));
    assert!(!sorts_before("a-b/x", "a/x"));
    assert!(sorts_before("a", "a/b"));
    assert!(sorts_before("/z", "a"));
    assert!(sorts_before("../z", "a"));
    assert!(!sorts_before("a", "a"));
    let mut set: Vec<String> = Vec::new();
    for p in ["b", "a-b/x", "a/x", "b/", "a//x"] {
        add_path(&mut set, p);
    }
    assert_eq!(set, ["a/x", "a-b/x", "b"]);
}

#[test]
fn where_the_map_comes_from() {
    let project = Source::from(None, false, "/game");
    assert_eq!(project.file(), "/game/default.project.json");
    assert!(project.owns_sourcemap() && project.is_project());
    let sourcemap = Source::from(Some("maps/s.json"), false, "/game");
    assert_eq!(sourcemap.file(), "/game/maps/s.json");
    assert!(!sourcemap.owns_sourcemap() && !sourcemap.is_project());
    assert_eq!(Source::from(Some("/s.json"), true, "/game").file(), "/s.json");

    assert!(project.read("{\"tree\": {}}").is_ok());
    assert_eq!(
        project.read("{}").err().unwrap().message(),
        "/game/default.project.json has no `tree`"
    );
    assert_eq!(
        sourcemap.read("{}").err().unwrap().message(),
        "/game/maps/s.json has no filePaths; is it a sourcemap?"
    );
}

#[test]
fn the_layout_follows_the_source() {
    let project = Source::from(None, false, "/game");
    let sourcemap = Source::from(Some("s.json"), false, "/game");
    let a = layout_for(None, &project);
    assert_eq!(a.source, "src");
    assert_eq!(a.targets[0].1, "src/Modux/client/Manifest/init.luau");
    assert_eq!(a.module_lists[1].1, "src/Modux/server/Modules.luau");
    assert_eq!(a.libs_dir, "src/Libs");
    assert_eq!(a.libs_target, "src/Modux/shared/Libs.luau");
    let b = layout_for(None, &sourcemap);
    assert_eq!(b.source, "sync");
    assert_eq!(
        b.targets[0].1,
        "sync/StarterPlayer/StarterPlayerScripts/client/Modux/Manifest/init.luau"
    );
    assert_eq!(b.targets[1].1, "sync/ServerScriptService/server/Modux/Manifest/init.luau");
    assert_eq!(b.module_lists[1].1, "sync/ServerScriptService/server/Modux/Modules.luau");
    assert_eq!(b.libs_dir, "sync/ReplicatedStorage/shared/Libs");
    assert_eq!(b.libs_target, "sync/ReplicatedStorage/shared/Modux/Libs.luau");
    let c: Layout = layout_for(Some("code"), &project);
    assert_eq!(c.source, "code");
    assert_eq!(layout_for(Some("code"), &sourcemap).libs_dir, "code/ReplicatedStorage/shared/Libs");
}

#[test]
fn where_the_project_is() {
    assert!(matches!(project_root(Some("s"), false, Some("p"), false), Root::At(p) if p == "p"));
    assert!(matches!(project_root(Some("s"), false, None, false), Root::NoSourcemap(p) if p == "s"));
    assert!(matches!(project_root(Some("a/s"), true, None, false), Root::At(p) if p == "a"));
    assert!(matches!(project_root(Some("s"), true, None, false), Root::Current));
    assert!(matches!(project_root(None, false, Some("p"), true), Root::At(p) if p == "p"));
    assert!(matches!(project_root(None, false, Some("p"), false), Root::NoProject(p) if p == "p"));
    assert!(matches!(project_root(None, false, None, false), Root::Search));
}

/// The search goes up one folder at a time, and ends at the root.
#[test]
fn the_search_has_an_end() {
    assert!(matches!(climb("/a/b", true), Climb::Found));
    let mut at = "/a/b".to_string();
    let mut seen = Vec::new();
    while let Climb::Up(next) = climb(&at, false) {
        seen.push(next.clone());
        at = next;
    }
    assert_eq!(seen, ["/a", "/"]);
    assert!(matches!(climb("/", false), Climb::Lost));
}

#[test]
fn texts() {
    assert_eq!(pieces("a.b..c", '.'), ["a", "b", "", "c"]);
    assert_eq!(join(&pieces("a.b..c", '.'), "."), "a.b..c");
    assert_eq!(head("a.b", '.'), "a");
    assert_eq!(head("ab", '.'), "ab");
    assert_eq!(lines_of("a\r\nb\n"), ["a", "b"]);
    assert_eq!(replace("a\\b", '\\', '/'), "a/b");
    assert_eq!(cut_last("a.b.c", '.').unwrap(), "a.b");
    assert_eq!(cut_last("abc", '.'), None);
    assert_eq!(pad("ab", 4), "ab  ");
    assert_eq!(pad("abc", 2), "abc");
    assert!(comes_before("a", "ab"));
    assert!(comes_before("Z", "a"));
    assert!(!comes_before("a", "a"));
}

#[test]
fn tables_and_sets() {
    let mut t: Table<String> = Table::new();
    t.put("b", "1".to_string());
    t.put("a", "2".to_string());
    t.put("b", "3".to_string());
    assert_eq!(t.len(), 2);
    assert_eq!((t.key(0).as_str(), t.value(0).as_str()), ("a", "2"));
    assert_eq!(t.get("b").unwrap(), "3");
    assert!(t.get("c").is_none());
    t.retain(&vec!["c".to_string(), "b".to_string()]);
    assert_eq!(t.len(), 1);
    assert!(t.get("a").is_none());
    let mut set: Vec<String> = Vec::new();
    for k in ["x", "a", "x", "m"] {
        add_to(&mut set, k);
    }
    assert_eq!(set, ["a", "m", "x"]);
}
