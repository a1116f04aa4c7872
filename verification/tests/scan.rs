use modux::scan::{
    destination, dry_run, find_modules, flatten, foldered_modules, has_call, is_eligible,
    is_generated, is_settled, is_watched, leaf_beside, legacy_leaves, line_of_move, Kept,
};

fn list(items: &[&str]) -> Vec<String> {
    items.iter().map(|i| i.to_string()).collect()
}

fn at(path: &str) -> Option<String> {
    Some(path.to_string())
}

#[test]
fn texts_that_make_a_module() {
    assert!(has_call("local M = C.Controller(\"M\")"));
    assert!(has_call("C.Service ( 'M')"));
    assert!(has_call("C.Component\n(\n\t'M'\n)"));
    assert!(has_call("C.Services(x) C.Service(id) C.Service('late')"));
    assert!(!has_call("C.Service(id)"));
    assert!(!has_call("C.Service\"M\""));
    assert!(!has_call("C:Service('M')"));
    assert!(!has_call("C.Servicer('M')"));
    assert!(!has_call(""));
    assert!(!has_call("C.Service("));
}

#[test]
fn what_the_generator_writes() {
    let targets = list(&["/g/src/Modux/client/Modules.luau", "/g/src/ModuxTypes/client"]);
    assert!(is_generated("x/Type.luau", &None, &Vec::new()));
    assert!(!is_generated("x/y.luau", &None, &targets));
    assert!(is_generated("m", &at("/g/src/Modux/client/Modules.luau"), &targets));
    assert!(is_generated("m", &at("/g/src/ModuxTypes/client/Foo.luau"), &targets));
    assert!(!is_generated("m", &at("/g/src/ModuxTypes/clients/Foo.luau"), &targets));
    assert!(!is_watched("a/Type.luau", &at("/a/Type.luau"), &targets));
    assert!(!is_watched("a/b.txt", &at("/a/b.txt"), &targets));
    assert!(is_watched("a/Modux/b.luau", &at("/a/Modux/b.luau"), &targets));
    assert!(!is_eligible("a/Modux/b.luau", &at("/a/Modux/b.luau"), &targets));
    assert!(is_eligible("a/b.luau", &None, &targets));
}

#[test]
fn modules_in_the_order_of_their_paths() {
    let file = |p: &str, t: &str| (p.to_string(), t.to_string());
    let files = vec![
        file("/g/b.luau", "C.Service('b')"),
        file("/g/a-b/c.luau", "C.Service('c')"),
        file("/g/no.luau", "return 1"),
        file("/g/a/init.luau", "C.Component('a')"),
    ];
    let found = find_modules(&files);
    assert_eq!(found, ["/g/a/init.luau", "/g/a-b/c.luau", "/g/b.luau"]);
    assert_eq!(foldered_modules(&found), ["/g/a/init.luau"]);
    assert_eq!(legacy_leaves(&found), ["/g/Type.luau", "/g/a/Type.luau", "/g/a-b/Type.luau"]);
    assert_eq!(legacy_leaves(&list(&["x/b.luau", "x/a.luau"])), ["x/Type.luau"]);
    assert_eq!(leaf_beside("a/b.luau").unwrap(), "a/Type.luau");
    assert_eq!(leaf_beside("/"), None);
}

#[test]
fn a_folder_that_holds_nothing_else_is_flattened() {
    let names = list(&["Type.luau", "init.luau"]);
    let (folder, to) = flatten("src/Foo/init.luau", &names, false).unwrap();
    assert_eq!((folder.as_str(), to.as_str()), ("src/Foo", "src/Foo.luau"));
    assert_eq!(destination("src/Foo/init.luau").unwrap(), "src/Foo.luau");
    assert_eq!(destination("/"), None);
}

#[test]
fn a_folder_with_a_dot_in_its_name_keeps_its_whole_name() {
    let (folder, to) = flatten("P/A.b/init.luau", &list(&["init.luau"]), false).unwrap();
    assert_eq!((folder.as_str(), to.as_str()), ("P/A.b", "P/A.b.luau"));
    assert_eq!(destination("P/A.b/init.luau").unwrap(), "P/A.b.luau");
    assert_eq!(
        dry_run("/g", &list(&["/g/P/A.b/init.luau", "/g/P/A/init.luau"]), &Vec::new()),
        ["P/A.b/init.luau  ->  P/A.b.luau", "P/A/init.luau  ->  P/A.luau"]
    );
    let e = flatten("P/A.b/init.luau", &list(&["init.luau"]), true).unwrap_err();
    assert_eq!(e.message(), "cannot flatten P/A.b: P/A.b.luau already exists");
}

#[test]
fn a_folder_that_stays() {
    let names = list(&["a.luau", "init.luau", "b"]);
    let e = flatten("src/Foo/init.luau", &names, true).unwrap_err();
    assert_eq!(e.message(), "src/Foo still holds a.luau, b — left as a folder on purpose");
    let e = flatten("src/Foo/init.luau", &list(&["init.luau"]), true).unwrap_err();
    assert!(matches!(e, Kept::Taken { .. }));
    assert_eq!(e.message(), "cannot flatten src/Foo: src/Foo.luau already exists");
    let e = flatten("/", &Vec::new(), false).unwrap_err();
    assert_eq!(e.message(), "/ has no parent folder");
}

#[test]
fn a_migration_that_is_only_shown() {
    assert!(is_settled(&Vec::new(), &Vec::new(), false));
    assert!(!is_settled(&Vec::new(), &Vec::new(), true));
    assert!(!is_settled(&list(&["x"]), &Vec::new(), false));
    assert!(!is_settled(&Vec::new(), &list(&["x"]), false));
    assert_eq!(
        dry_run("/g", &list(&["/g/src/Foo/init.luau"]), &list(&["/g/src/Bar/Type.luau"])),
        ["src/Foo/init.luau  ->  src/Foo.luau", "src/Bar/Type.luau  ->  (removida)"]
    );
    assert_eq!(line_of_move("/g", "/g/a", "/h/b"), "a  ->  /h/b");
}
