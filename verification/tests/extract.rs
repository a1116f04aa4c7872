use modux::emit::emit;
use modux::extract::{
    argument, binding, declaration, dependency_read, local_types, method_body, param_name,
    require_from_props, requires_in, self_field, services, signature, string_value,
    typed_parameters, value_type, Extractor,
};
use modux::module::{Issue, Module};
use modux::syntax::{
    broken, faults, first_line, is_fine, mask, merge, parse, span, unread, Syntax,
};
use modux::table::Table;
use modux::tree::{
    Access, Args, Body, Chain, Entry, Event, Expr, ExprKind, Fault, Lexed, Link, Param, Parsed,
    Rendered, Spot, Statement,
};

fn run(text: &str) -> Module {
    Extractor::new("src\\Zombie.luau", text).run().unwrap()
}

fn text(full: &str) -> Rendered {
    Rendered { full: full.to_string(), lead: String::new(), trail: String::new() }
}

fn expr(kind: ExprKind) -> Expr {
    Expr { at: Some(Spot { line: 3, column: 7 }), text: text("e"), kind }
}

fn literal(raw: &str) -> Expr {
    expr(ExprKind::Literal(raw.to_string()))
}

fn access(head: &str, dots: &[&str]) -> Access {
    Access {
        head: Some(head.to_string()),
        dots: dots.iter().map(|d| Some(d.to_string())).collect(),
    }
}

fn call(head: &str, links: Vec<Link>) -> Expr {
    expr(ExprKind::Call(Chain { head: Some(head.to_string()), links }))
}

fn fields(m: &Module) -> Vec<(&str, &str)> {
    m.fields.iter().map(|f| (f.name.as_str(), f.ty.as_str())).collect()
}

fn methods(m: &Module) -> Vec<(&str, &str)> {
    m.methods.iter().map(|f| (f.name.as_str(), f.signature.as_str())).collect()
}

fn issues(m: &Module) -> Vec<(usize, usize, &str)> {
    m.issues.iter().map(|i| (i.line, i.column, i.message.as_str())).collect()
}

const ZOMBIE: &str = r#"--!strict
local ReplicatedStorage = game:GetService("ReplicatedStorage")
local Classes = require(ReplicatedStorage.shared.Modux.Classes)
local FSM = require(ReplicatedStorage.shared.Utils.FSM)

type Estado = "Idle" | "Run" | "Attack"

const Zombie = Classes.Controller("Zombie")

function Zombie:Setup()
	self.Vida = 100
	self.Machine = FSM.new("Idle" :: Estado) :: FSM.FSM<Estado>
	self.Dependencies.Skeleton:ShotArrow()
end

function Zombie:Heal(Amount: number): boolean
	self.Vida += Amount
	return true
end

return Zombie
"#;

#[test]
fn the_zombie_is_read() {
    let m = run(ZOMBIE);
    assert_eq!(m.id, "Zombie");
    assert_eq!(m.kind, "Controller");
    assert_eq!(m.file, "src/Zombie.luau");
    assert_eq!(fields(&m), [("Machine", "FSM.FSM<Estado>"), ("Vida", "number")]);
    assert_eq!(
        methods(&m),
        [
            ("Setup", "(self: Public) -> ()"),
            ("Heal", "(self: Public, Amount: number) -> boolean"),
        ]
    );
    assert_eq!(m.dependencies, ["Skeleton"]);
    assert!(m.declared_require.is_empty());
    assert!(m.issues.is_empty());
    assert_eq!(m.services.len(), 1);
    assert_eq!(m.services[0].alias, "ReplicatedStorage");
    assert_eq!(m.requires.len(), 2);
    assert_eq!(m.requires[1].alias, "FSM");
    assert_eq!(m.requires[1].expr, "ReplicatedStorage.shared.Utils.FSM");
    assert_eq!(m.local_types.len(), 1);
    assert_eq!(m.local_types[0].name, "Estado");
    assert_eq!(m.local_types[0].text, "type Estado = \"Idle\" | \"Run\" | \"Attack\"");
}

#[test]
fn the_leaf_of_the_zombie() {
    let m = run(ZOMBIE);
    assert_eq!(
        emit(&m, "ReplicatedStorage.shared.Entity.Zombie"),
        r#"--!strict
-- GERADO por modux a partir de src/Zombie.luau
-- NAO EDITAR A MAO: a proxima geracao sobrescreve.

local ReplicatedStorage = game:GetService("ReplicatedStorage")
local FSM = require(ReplicatedStorage.shared.Utils.FSM)

type Estado = "Idle" | "Run" | "Attack"

export type Public = {
	Machine: FSM.FSM<Estado>,
	Vida: number,
	Setup: (self: Public) -> (),
	Heal: (self: Public, Amount: number) -> boolean,
}

return {}
"#
    );
}

/// A literal is widened, so that the second assignment fits as well.
#[test]
fn literals_widen() {
    let m = run(
        "local M = C.Service('M')\nfunction M:Go()\n\tself.a = 1\n\tself.b = 'x'\n\tself.c = false\n\tself.a = 'later'\nend",
    );
    assert_eq!(fields(&m), [("a", "number"), ("b", "string"), ("c", "boolean")]);
    assert!(m.issues.is_empty());
}

/// A value without a type is said and left out; a later one with a type counts.
#[test]
fn a_value_without_a_type_is_said() {
    let m = run(
        "local M = C.Service('M')\nfunction M:Go()\n\tself.a = CFrame.new()\n\tself.b = nil\n\tself.a = CFrame.new() :: CFrame\nend",
    );
    assert_eq!(fields(&m), [("a", "CFrame")]);
    assert_eq!(
        issues(&m),
        [
            (3, 11, "self.a has no type. Annotate it with `::` so the generator can transcribe it."),
            (4, 11, "self.b has no type. Annotate it with `::` so the generator can transcribe it."),
        ]
    );
}

/// A parameter's own annotation gives the field its type.
#[test]
fn a_parameter_lends_its_type() {
    let m = run("local M = C.Service('M')\nfunction M:Go(p: { number }, q)\n\tself.p = p\n\tself.q = q\nend");
    assert_eq!(fields(&m), [("p", "{ number }")]);
    assert_eq!(methods(&m), [("Go", "(self: Public, p: { number }, q: unknown) -> ()")]);
    assert_eq!(m.issues.len(), 2);
    assert_eq!(m.issues[0].message, "parameter `q` has no type annotation.");
}

#[test]
fn three_ways_to_write_a_method() {
    let m = run(
        "local M = C.Component('M')\nfunction M:A(x: number) end\nfunction M.B(self, x: number) end\nM.C = function(self: any, ...: string): (number, string) end\nM.D = function(x: number) end\nfunction Other:E() end\nfunction M.F.G() end\nM.H = 3",
    );
    assert_eq!(
        methods(&m),
        [
            ("A", "(self: Public, x: number) -> ()"),
            ("B", "(self: Public, x: number) -> ()"),
            ("C", "(self: Public, ...: string) -> (number, string)"),
            ("D", "(self: Public, x: number) -> ()"),
        ]
    );
}

/// What is read inside an inner function counts too.
#[test]
fn dependencies_in_order_and_once() {
    let m = run(
        "local M = C.Service('M')\nfunction M:A()\n\tlocal x = self.Dependencies.Zeta\n\ttask.spawn(function()\n\t\tself.Dependencies.Alpha:Go(self.Dependencies.Mid.x)\n\t\tself.n = 1\n\tend)\n\tself.Dependencies.Zeta()\n\tother.Dependencies.No()\nend",
    );
    assert_eq!(m.dependencies, ["Alpha", "Mid", "Zeta"]);
    assert_eq!(fields(&m), [("n", "number")]);
}

#[test]
fn what_a_module_requires() {
    let m = run("local M = C.Service(\"M\", { Other = 1, Require = { 'A', \"B\", x = 'C', 3 } })");
    assert_eq!(m.declared_require, ["A", "B"]);
    let m = run("local M = C.Service('M', { Require = 'One' })");
    assert_eq!(m.declared_require, ["One"]);
    let m = run("local M = C.Service('M', { Require = what })");
    assert!(m.declared_require.is_empty());
    let m = run("local M = C.Service('M', props)");
    assert!(m.declared_require.is_empty());
}

#[test]
fn services_with_a_dot_or_a_colon() {
    let m = run(
        "local M = C.Service('M')\nlocal A = game:GetService('Players')\nlocal B = game.GetService('Teams')\nlocal D = game:FindService('X')\nlocal E = game:GetService(name)",
    );
    let found: Vec<_> =
        m.services.iter().map(|s| (s.alias.as_str(), s.service.as_str())).collect();
    assert_eq!(found, [("A", "Players"), ("B", "Teams")]);
}

#[test]
fn types_as_they_are_written() {
    let m = run(
        "local M = C.Service('M')\n-- a comment\ntype A = {\n\tx: number, -- inside\n}\nexport type B = A -- after\n",
    );
    let found: Vec<_> =
        m.local_types.iter().map(|t| (t.name.as_str(), t.text.as_str())).collect();
    assert_eq!(
        found,
        [("A", "type A = {\n\tx: number, -- inside\n}"), ("B", "export type B = A")]
    );
}

#[test]
fn a_file_without_a_module_is_refused() {
    let e = Extractor::new("a/b.luau", "local x = 1").run().unwrap_err();
    assert_eq!(e.message(), "a/b.luau: no call to Controller, Service or Component found");
    // The first constructor decides, and here it has no id.
    assert!(Extractor::new("a", "local M = C.Service(id)\nlocal N = C.Service('N')").run().is_err());
    assert!(Extractor::new("a", "local M = C.Thing('N')").run().is_err());
    assert!(Extractor::new("a", "local M = Service('N')").run().is_err());
}

/// What could be read of a file that does not parse is kept, and it says so.
#[test]
fn a_broken_file_keeps_its_types() {
    let whole = "local M = C.Service('M')\nfunction M:A(): number\n\tself.a = 1\n\treturn 1\nend\n";
    let m = run(&format!("{whole}function M:B()\n\tself.\nend\n"));
    assert_eq!(m.id, "M");
    assert_eq!(fields(&m), [("a", "number")]);
    assert_eq!(methods(&m)[0], ("A", "(self: Public) -> number"));
    assert_eq!(m.issues[0].message, "file does not parse yet; typed from what was readable");
    assert_eq!(m.issues[0].column, 0);
    assert!(run(whole).issues.is_empty());
}

/// The same module, but for what it says first, whether the file parsed or not.
#[test]
fn a_fault_only_adds_an_issue() {
    let make = |broken: Option<Syntax>| {
        Extractor {
            path: "p".to_string(),
            source: Parsed {
                stmts: vec![
                    Statement::Const(
                        vec!["M".to_string()],
                        vec![call(
                            "C",
                            vec![
                                Link::Dot("Service".to_string()),
                                Link::Call(Args::List(vec![literal("'M'")])),
                            ],
                        )],
                    ),
                    Statement::Function(
                        vec!["M".to_string()],
                        Some("Go".to_string()),
                        Body { at: None, params: vec![Param::Other], types: Vec::new(), output: None },
                        vec![
                            Event::Assign(
                                vec![Some(access("self", &["x"])), None],
                                vec![expr(ExprKind::Other), literal("'y'")],
                            ),
                            Event::Call(access("self", &["Dependencies", "D"])),
                        ],
                    ),
                ],
                errors: Vec::new(),
            },
            broken,
        }
        .run()
        .unwrap()
    };
    let whole = make(None);
    let torn = make(Some(Syntax { file: "p".to_string(), line: Some(9), detail: "d".to_string() }));
    assert_eq!(methods(&whole), [("Go", "(self: Public, ...: unknown) -> ()")]);
    assert_eq!(methods(&whole), methods(&torn));
    assert_eq!(whole.dependencies, ["D"]);
    assert_eq!(whole.dependencies, torn.dependencies);
    assert_eq!(
        issues(&whole),
        [
            (0, 0, "parameter `...` has no type annotation."),
            (3, 7, "self.x has no type. Annotate it with `::` so the generator can transcribe it."),
        ]
    );
    assert_eq!(
        issues(&torn)[0],
        (9, 0, "file does not parse yet; typed from what was readable")
    );
    assert_eq!(issues(&torn)[1..], issues(&whole)[..]);
}

#[test]
fn strings_without_their_quotes() {
    assert_eq!(string_value(&literal("\"a b\"")).unwrap(), "a b");
    assert_eq!(string_value(&literal("'a'")).unwrap(), "a");
    assert_eq!(string_value(&literal("[[a]]")).unwrap(), "[[a]]");
    assert_eq!(string_value(&literal("'a\"")).unwrap(), "'a\"");
    assert_eq!(string_value(&literal("'")).unwrap(), "'");
    assert_eq!(string_value(&literal("")), None);
    assert_eq!(string_value(&expr(ExprKind::Number)), None);
}

#[test]
fn accesses_of_self() {
    assert_eq!(self_field(&access("self", &["x"])).unwrap(), "x");
    assert_eq!(self_field(&access("self", &["x", "y"])), None);
    assert_eq!(self_field(&access("this", &["x"])), None);
    assert_eq!(dependency_read(&access("self", &["Dependencies", "X", "y"])).unwrap(), "X");
    assert_eq!(dependency_read(&access("self", &["Dependencies"])), None);
    assert_eq!(dependency_read(&access("self", &["Deps", "X"])), None);
    assert_eq!(dependency_read(&Access { head: None, dots: Vec::new() }), None);
}

#[test]
fn signatures_and_values() {
    let body = Body {
        at: Some(Spot { line: 1, column: 2 }),
        params: vec![Param::Name("self".to_string()), Param::Name("x".to_string()), Param::Other],
        types: vec![None, Some(text(" number "))],
        output: Some(text("string")),
    };
    let mut said: Vec<Issue> = Vec::new();
    assert_eq!(signature(&body, false, true, &mut said), "(self: Public, x: number, ...: unknown) -> string");
    assert_eq!(said.len(), 1);
    assert_eq!((said[0].line, said[0].column), (1, 2));
    assert_eq!(
        signature(&body, true, true, &mut said),
        "(self: Public, self: unknown, x: number, ...: unknown) -> string"
    );
    assert_eq!(signature(&body, false, false, &mut said), "(self: unknown, x: number, ...: unknown) -> string");
    assert_eq!(said.len(), 5);

    let known = typed_parameters(&body);
    assert_eq!(known.len(), 1);
    assert_eq!(known.get("x").unwrap(), "number");
    assert_eq!(param_name(&body.params[2]), "...");

    let mut said: Vec<Issue> = Vec::new();
    let name = |n: &str| expr(ExprKind::Name(n.to_string()));
    assert_eq!(value_type(&name("x"), "self.a", &known, &mut said).unwrap(), "number");
    assert_eq!(value_type(&name("y"), "self.a", &known, &mut said), None);
    assert_eq!(said.len(), 1);
    let none: Table<String> = Table::new();
    assert_eq!(value_type(&name("x"), "self.a", &none, &mut said), None);
    let cast = expr(ExprKind::Cast(text("A.B")));
    assert_eq!(value_type(&cast, "self.a", &none, &mut said).unwrap(), "A.B");
    let f = expr(ExprKind::Function(Body { at: None, params: Vec::new(), types: Vec::new(), output: None }));
    assert_eq!(value_type(&f, "self.a", &none, &mut said).unwrap(), "() -> ()");
    let symbol = |s: &str| expr(ExprKind::Symbol(s.to_string()));
    assert_eq!(value_type(&symbol("true"), "self.a", &none, &mut said).unwrap(), "boolean");
    assert_eq!(value_type(&symbol("nil"), "self.a", &none, &mut said), None);
    assert_eq!(said.len(), 3);
}

#[test]
fn statements_one_by_one() {
    let list = Args::List(vec![
        literal("'Id'"),
        expr(ExprKind::Fields(vec![
            Entry::Plain(literal("'no'")),
            Entry::Named("Require".to_string(), expr(ExprKind::Number)),
            Entry::Named("Require".to_string(), literal("'yes'")),
        ])),
    ]);
    assert_eq!(require_from_props(&list), ["yes"]);
    assert!(require_from_props(&Args::Other).is_empty());
    assert!(argument(&list, 1).is_some());
    assert!(argument(&list, 2).is_none());
    assert!(argument(&Args::Other, 0).is_none());

    let local = Statement::Local(
        vec!["M".to_string()],
        vec![call("C", vec![Link::Dot("Component".to_string()), Link::Call(list)])],
    );
    assert!(binding(&local).is_some());
    assert!(binding(&Statement::Other).is_none());
    let stmts = vec![Statement::Other, local];
    let d = declaration(&stmts).unwrap();
    assert_eq!((d.local.as_str(), d.id.as_str(), d.kind.as_str()), ("M", "Id", "Component"));
    assert_eq!(d.required, ["yes"]);
    assert!(services(&stmts).is_empty());
    assert!(requires_in(&stmts).is_empty());
    assert!(local_types(&stmts).is_empty());
    assert!(method_body(&stmts[1], "M").is_none());

    let st = Statement::Assign(
        vec![Some(access("M", &["Go"]))],
        vec![expr(ExprKind::Function(Body { at: None, params: Vec::new(), types: Vec::new(), output: None }))],
        vec![vec![Event::Access(access("self", &["x"]))]],
    );
    let found = method_body(&st, "M").unwrap();
    assert_eq!(found.name, "Go");
    assert!(!found.colon);
    assert_eq!(found.events.unwrap().len(), 1);
    assert!(method_body(&st, "N").is_none());
}

#[test]
fn lines_in_messages() {
    assert_eq!(first_line("unexpected (line 12, column 3)"), Some(12));
    assert_eq!(first_line("line 0"), Some(0));
    assert_eq!(first_line("line x line 4"), None);
    assert_eq!(first_line("nothing"), None);
    assert_eq!(first_line("line 18446744073709551615"), Some(18446744073709551615));
    assert_eq!(first_line("line 18446744073709551616"), None);
}

#[test]
fn what_is_wrong_with_a_file() {
    assert!(broken("f", &Vec::new()).is_none());
    let errors: Vec<String> =
        ["a line 3", "b", "c", "d"].iter().map(|e| e.to_string()).collect();
    let s = broken("f.luau", &errors).unwrap();
    assert_eq!(s.line, Some(3));
    assert_eq!(s.detail, "a line 3\n  b\n  c");
    assert_eq!(s.message(), "f.luau:\n  a line 3\n  b\n  c");

    let (_, fine) = parse("f.luau", "local x = 1");
    assert!(fine.is_none());
    let (source, fault) = parse("f.luau", "local x = 1\nlocal y =");
    assert_eq!(source.stmts.len(), 2);
    let fault = fault.unwrap();
    assert_eq!(fault.file, "f.luau");
    assert!(fault.detail.starts_with("error occurred while creating ast: "));
}

#[test]
fn the_text_of_a_node() {
    let node = |full: &str, lead: &str, trail: &str| Rendered {
        full: full.to_string(),
        lead: lead.to_string(),
        trail: trail.to_string(),
    };
    assert_eq!(span(&node("-- c\nx: T -- d", "-- c\n", " -- d")), "x: T");
    assert_eq!(span(&node(" { T } ", " ", " ")), "{ T }");
    // What is not at the edge is not cut.
    assert_eq!(span(&node("{ string }", "--", " ")), "{ string }");
    assert_eq!(span(&node("ab", "ab", "b")), "");
}

/// Every kind of node that is read comes through the parser.
#[test]
fn what_the_parser_gives() {
    let (source, _) = parse(
        "f",
        "local a, b = x, 'y', 1, true, function() end, z :: T, f(1), { k = 1, 2, [3] = 4 }, #q\nx.y = 1\nz = 2\n",
    );
    let Statement::Local(names, values) = &source.stmts[0] else { panic!() };
    assert_eq!(names, &["a", "b"]);
    assert_eq!(values.len(), 9);
    assert!(matches!(&values[0].kind, ExprKind::Name(n) if n == "x"));
    assert!(matches!(&values[1].kind, ExprKind::Literal(n) if n == "'y'"));
    assert!(matches!(&values[2].kind, ExprKind::Number));
    assert!(matches!(&values[3].kind, ExprKind::Symbol(n) if n == "true"));
    assert!(matches!(&values[4].kind, ExprKind::Function(_)));
    assert!(matches!(&values[5].kind, ExprKind::Cast(t) if span(t) == "T"));
    assert!(matches!(&values[6].kind, ExprKind::Call(_)));
    let ExprKind::Fields(entries) = &values[7].kind else { panic!() };
    assert!(matches!(&entries[0], Entry::Named(k, _) if k == "k"));
    assert!(matches!(&entries[1], Entry::Plain(_)));
    assert!(matches!(&entries[2], Entry::Other));
    assert!(matches!(&values[8].kind, ExprKind::Other));
    assert_eq!(span(&values[8].text), "#q");
    let at = values[0].at.as_ref().unwrap();
    assert_eq!((at.line, at.column), (1, 14));
    let Statement::Assign(targets, _, events) = &source.stmts[1] else { panic!() };
    assert!(targets[0].is_some());
    assert!(events[0].is_empty());
    let Statement::Assign(targets, _, _) = &source.stmts[2] else { panic!() };
    assert!(targets[0].is_none());
}

fn unreadable(text: &str, says: &[&str], stmts: usize) {
    let (source, fault) = parse("f.luau", text);
    let fault = fault.unwrap();
    assert_eq!(fault.file, "f.luau");
    assert_eq!((source.errors.len(), source.stmts.len()), (says.len(), stmts), "{text}");
    for (error, part) in source.errors.iter().zip(says) {
        assert!(error.contains(part), "{error}");
    }
    assert_eq!(fault.detail, source.errors[..says.len().min(3)].join("\n  "));
}

#[test]
fn a_type_with_a_character_that_is_no_luau() {
    unreadable("local x: n$", &["tokenizing: unexpected character $ (1:11 to 1:12)"], 1);
    unreadable(
        "local a = 1\ntype Estado = Opção\nlocal b = 2\n",
        &[
            "tokenizing: unexpected character ç (2:17 to 2:18)",
            "tokenizing: unexpected character ã (2:18 to 2:19)",
            "creating ast: unexpected token `local`. (starting from line 3",
        ],
        3,
    );
}

#[test]
fn a_name_that_is_no_luau_behind_a_dot() {
    unreadable(
        "local x: Foo.$",
        &[
            "expected identifier after `.`",
            "expected type info after `:`",
            "tokenizing: unexpected character $ (1:14 to 1:15)",
        ],
        1,
    );
    unreadable(
        "local a = 1\nlocal t: { [string]: $ }",
        &[
            "expected type info after `:`",
            "unexpected token `}`",
            "tokenizing: unexpected character $ (2:22 to 2:23)",
        ],
        2,
    );
    let (source, fault) = parse("f.luau", "local a = 1\n@$\n~\nlocal b = 2");
    assert!(fault.is_some());
    assert!(source.errors.iter().any(|e| e.contains("unexpected character $ (2:2 to 2:3)")));
    assert!(source.errors.iter().any(|e| e.contains("invalid symbol ~ (3:1 to 3:2)")));
}

#[test]
fn a_first_line_for_the_shell_before_a_comment_that_never_ends() {
    let (source, fault) = parse("f.luau", "#!/usr/bin/env lune\n--[[ todo");
    let fault = fault.unwrap();
    assert_eq!((fault.line, fault.detail.as_str()), (Some(2), "unexpected text: --[[ todo"));
    assert!(source.stmts.is_empty());
    let (source, fault) = parse("f.luau", "#!/usr/bin/env lune\nlocal x = 1");
    assert!(fault.is_none());
    assert_eq!(source.stmts.len(), 1);
}

/// Only what is no token is left out, and the rest of its line is read.
#[test]
fn the_line_of_a_fault_keeps_its_field() {
    let m = run("local M = C.Service('M')\nfunction M:Go()\n\tself.Vida = 100 !\nend\n");
    assert_eq!(fields(&m), [("Vida", "number")]);
    assert_eq!(
        issues(&m)[0],
        (0, 0, "file does not parse yet; typed from what was readable")
    );
}

fn piece(from: usize, to: usize, line: usize, message: &str) -> Fault {
    Fault { from, to, line, message: message.to_string() }
}

#[test]
fn pieces_that_are_no_tokens() {
    let tokens = vec![
        Lexed::Fine,
        Lexed::Fatal(vec![piece(1, 2, 1, "a"), piece(4, 6, 2, "b")]),
        Lexed::Fatal(vec![piece(9, 9, 3, "c")]),
    ];
    assert!(!is_fine(&tokens));
    assert!(!is_fine(&Vec::new()));
    assert!(is_fine(&vec![Lexed::Fine]));
    let found = faults(&tokens);
    let words: Vec<&str> = found.iter().map(|f| f.message.as_str()).collect();
    assert_eq!(words, ["a", "b", "c"]);
    assert_eq!(mask("x$y\nção", &found), "x y\n ão");
    assert_eq!(mask("x$y\nção", &Vec::new()), "x$y\nção");
    let said = |lines: &[&str]| merge(&found, &lines.iter().map(|l| l.to_string()).collect());
    assert_eq!(said(&[]), ["a", "b", "c"]);
    assert_eq!(said(&["line 1", "line 3", "line 9"]), ["line 1", "a", "b", "line 3", "c", "line 9"]);
    assert_eq!(said(&["no place"]), ["no place", "a", "b", "c"]);
}

#[test]
fn an_unequal_sign_is_no_fault() {
    let (source, fault) = parse("f.luau", "local x = a ~= b");
    assert!(fault.is_none());
    assert_eq!(source.stmts.len(), 1);
}

#[test]
fn a_module_is_typed_from_the_lines_that_can_be_read() {
    let m = run("local M = C.Service('M')\nlocal preço = 1\nfunction M:Sell(n: number) end\n");
    assert_eq!(m.id, "M");
    assert_eq!(m.methods.len(), 1);
    assert_eq!(
        issues(&m)[0],
        (0, 0, "file does not parse yet; typed from what was readable")
    );
}

#[test]
fn a_file_without_a_line_to_blame() {
    let fault = unread("f.luau", &Vec::new(), None);
    assert_eq!((fault.line, fault.detail.as_str()), (None, "unexpected text"));
}
