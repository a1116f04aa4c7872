//! Reading a module: its declaration, its methods, and the fields and
//! dependencies that their bodies show.

use vstd::prelude::*;

use crate::module::{
    Field, Import, ImportView, Issue, IssueView, LocalType, LocalTypeView, Method, Module,
    ModuleView, Service, ServiceView,
};
use crate::syntax::{self, span, Syntax, SyntaxView};
use crate::table::{self, Rows, Table};
use crate::text::{self, chars_of, copy, same, Text};
use crate::tree::{
    self, Access, AccessView, Args, ArgsView, Body, BodyView, Chain, ChainView, Entry, EntryView,
    Event, EventView, Expr, ExprKind, ExprView, KindView, Link, LinkView, Param, ParamView, Parsed,
    Rendered, RenderedView, Spot, Statement, StatementView,
};

verus! {

/// A string without its quotes, where it has the same one at both ends.
pub open spec fn unquoted(raw: Text) -> Option<Text> {
    if raw.len() == 0 {
        None
    } else if raw.len() >= 2 && (raw[0] == '"' || raw[0] == '\'') && raw.last() == raw[0] {
        Some(raw.subrange(1, raw.len() - 1))
    } else {
        Some(raw)
    }
}

/// What a string expression holds.
pub open spec fn string_of(e: ExprView) -> Option<Text> {
    match e.kind {
        KindView::Literal(raw) => unquoted(raw),
        _ => None,
    }
}

/// What a string expression holds.
pub fn string_value(e: &Expr) -> (r: Option<String>)
    ensures
        r.deep_view() == string_of(e.deep_view()),
{
    match &e.kind {
        ExprKind::Literal(raw) => {
            let v = chars_of(raw.as_str());
            let n: usize = v.len();
            if n == 0 {
                None
            } else if n >= 2 && (v[0] == '"' || v[0] == '\'') && v[n - 1] == v[0] {
                Some(text::text_of(&v, 1, n - 1))
            } else {
                Some(copy(raw.as_str()))
            }
        },
        _ => None,
    }
}

/// A parameter as a signature names it.
pub open spec fn label(p: ParamView) -> Text {
    match p {
        ParamView::Name(n) => n,
        ParamView::Other => "..."@,
    }
}

/// A parameter as a signature names it.
pub fn param_name(p: &Param) -> (r: String)
    ensures
        r@ == label(p.deep_view()),
{
    match p {
        Param::Name(n) => copy(n.as_str()),
        Param::Other => copy("..."),
    }
}

/// The type annotated at parameter `i`.
pub open spec fn annotation(types: Seq<Option<RenderedView>>, i: int) -> Option<Text> {
    if 0 <= i < types.len() {
        match types[i] {
            Some(t) => Some(syntax::spanned(t)),
            None => None,
        }
    } else {
        None
    }
}

/// The type annotated at parameter `i`.
fn annotated(types: &Vec<Option<Rendered>>, i: usize) -> (r: Option<String>)
    ensures
        r.deep_view() == annotation(types.deep_view(), i as int),
{
    if i < types.len() {
        assert(types.deep_view()[i as int] == types@[i as int].deep_view());
        match &types[i] {
            Some(t) => Some(span(t)),
            None => None,
        }
    } else {
        None
    }
}

/// The named parameters that have a type, with it.
pub open spec fn typed(params: Seq<ParamView>, types: Seq<Option<RenderedView>>) -> Rows<Text>
    decreases params.len(),
{
    if params.len() == 0 {
        Seq::empty()
    } else {
        let some = typed(params.drop_last(), types);
        match (params.last(), annotation(types, params.len() - 1)) {
            (ParamView::Name(n), Some(ty)) => table::put(some, n, ty),
            _ => some,
        }
    }
}

/// The named parameters that have a type, with it.
pub fn typed_parameters(body: &Body) -> (r: Table<String>)
    ensures
        r.wf(),
        r@ == typed(body.deep_view().params, body.deep_view().types),
{
    let ghost all = body.params.deep_view();
    let ghost types = body.types.deep_view();
    let mut out: Table<String> = Table::new();
    let mut i: usize = 0;
    assert(all.take(0) =~= Seq::empty());
    while i < body.params.len()
        invariant
            all == body.params.deep_view(),
            types == body.types.deep_view(),
            i <= all.len(),
            out.wf(),
            out@ == typed(all.take(i as int), types),
        decreases body.params.len() - i,
    {
        assert(all.take(i + 1).drop_last() =~= all.take(i as int));
        assert(all[i as int] == body.params@[i as int].deep_view());
        let ty = annotated(&body.types, i);
        if let Param::Name(n) = &body.params[i] {
            if let Some(ty) = ty {
                out.put(n.as_str(), ty);
            }
        }
        i = i + 1;
    }
    assert(all.take(i as int) =~= all);
    out
}

/// The arguments between parentheses.
pub open spec fn args_of(args: ArgsView) -> Seq<ExprView> {
    match args {
        ArgsView::List(list) => list,
        ArgsView::Other => Seq::empty(),
    }
}

/// Argument `i` of a call.
pub fn argument(args: &Args, i: usize) -> (r: Option<&Expr>)
    ensures
        match r {
            Some(e) => i < args_of(args.deep_view()).len() && e.deep_view() == args_of(
                args.deep_view(),
            )[i as int],
            None => i >= args_of(args.deep_view()).len(),
        },
{
    match args {
        Args::List(list) => {
            proof {
                tree::lemma_list(*list);
            }
            if i < list.len() {
                Some(&list[i])
            } else {
                None
            }
        },
        Args::Other => None,
    }
}

/// What `local x = ..` and `const x = ..` bind alike: the names and the values.
pub open spec fn bound(st: StatementView) -> Option<(Seq<Text>, Seq<ExprView>)> {
    match st {
        StatementView::Local(names, values) => Some((names, values)),
        StatementView::Const(names, values) => Some((names, values)),
        _ => None,
    }
}

/// What a statement binds.
pub fn binding(st: &Statement) -> (r: Option<(&Vec<String>, &Vec<Expr>)>)
    ensures
        match r {
            Some((names, values)) => bound(st.deep_view()) == Some(
                (names.deep_view(), values.deep_view()),
            ),
            None => bound(st.deep_view()) is None,
        },
{
    match st {
        Statement::Local(names, values) => Some((names, values)),
        Statement::Const(names, values) => Some((names, values)),
        _ => None,
    }
}

/// The call that a statement binds, with the names that it is bound to.
pub open spec fn bound_call(st: StatementView) -> Option<(Seq<Text>, ChainView)> {
    match bound(st) {
        Some((names, values)) => if values.len() > 0 {
            match values[0].kind {
                KindView::Call(chain) => Some((names, chain)),
                _ => None,
            }
        } else {
            None
        },
        None => None,
    }
}

/// The call that a statement binds.
fn call_bound(st: &Statement) -> (r: Option<(&Vec<String>, &Chain)>)
    ensures
        match r {
            Some((names, chain)) => bound_call(st.deep_view()) == Some(
                (names.deep_view(), chain.deep_view()),
            ),
            None => bound_call(st.deep_view()) is None,
        },
{
    match binding(st) {
        Some((names, values)) => {
            if values.len() == 0 {
                return None;
            }
            assert(values.deep_view()[0] == values@[0].deep_view());
            match &values[0].kind {
                ExprKind::Call(chain) => Some((names, chain)),
                _ => None,
            }
        },
        None => None,
    }
}

/// `self.Dependencies.X`, in any position, whether or not it ends in a call.
pub open spec fn dependency(a: AccessView) -> Option<Text> {
    if a.head == Some("self"@) && a.dots.len() >= 2 && a.dots[0] == Some("Dependencies"@) {
        a.dots[1]
    } else {
        None
    }
}

/// Whether an optional text is this one.
fn says(t: &Option<String>, expected: &str) -> (r: bool)
    ensures
        r == (t.deep_view() == Some(expected@)),
{
    match t {
        Some(s) => same(s.as_str(), expected),
        None => false,
    }
}

/// An optional text of its own.
fn copy_text(t: &Option<String>) -> (r: Option<String>)
    ensures
        r.deep_view() == t.deep_view(),
{
    match t {
        Some(s) => Some(copy(s.as_str())),
        None => None,
    }
}

/// `self.Dependencies.X`: the name.
pub fn dependency_read(a: &Access) -> (r: Option<String>)
    ensures
        r.deep_view() == dependency(a.deep_view()),
{
    if says(&a.head, "self") && a.dots.len() >= 2 && says(&a.dots[0], "Dependencies") {
        copy_text(&a.dots[1])
    } else {
        None
    }
}

/// `self.X`, or another name's, exactly one level deep.
pub open spec fn field_of(a: AccessView, owner: Text) -> Option<Text> {
    if a.head == Some(owner) && a.dots.len() == 1 {
        a.dots[0]
    } else {
        None
    }
}

/// `owner.X`: the name of the field.
fn owned_field(a: &Access, owner: &str) -> (r: Option<String>)
    ensures
        r.deep_view() == field_of(a.deep_view(), owner@),
{
    if says(&a.head, owner) && a.dots.len() == 1 {
        copy_text(&a.dots[0])
    } else {
        None
    }
}

/// `self.X`: the name of the field.
pub fn self_field(a: &Access) -> (r: Option<String>)
    ensures
        r.deep_view() == field_of(a.deep_view(), "self"@),
{
    owned_field(a, "self")
}

/// How a module is declared: the name that it is bound to, its id, what it
/// requires, and what it is.
pub struct Declaration {
    pub local: String,
    pub id: String,
    pub required: Vec<String>,
    pub kind: String,
}

/// What a `Declaration` holds.
pub struct DeclarationView {
    pub local: Text,
    pub id: Text,
    pub required: Seq<Text>,
    pub kind: Text,
}

impl DeepView for Declaration {
    type V = DeclarationView;

    open spec fn deep_view(&self) -> DeclarationView {
        DeclarationView {
            local: self.local@,
            id: self.id@,
            required: self.required.deep_view(),
            kind: self.kind@,
        }
    }
}

/// What a module can be.
pub open spec fn is_kind(name: Text) -> bool {
    name == "Controller"@ || name == "Service"@ || name == "Component"@
}

/// `something.Controller(..)`, and the like: the kind and the arguments.
pub open spec fn constructor(chain: ChainView) -> Option<(Text, ArgsView)> {
    if chain.links.len() == 2 {
        match (chain.links[0], chain.links[1]) {
            (LinkView::Dot(kind), LinkView::Call(args)) => if is_kind(kind) {
                Some((kind, args))
            } else {
                None
            },
            _ => None,
        }
    } else {
        None
    }
}

/// The strings without a key in a table, in order.
pub open spec fn plain_strings(list: Seq<EntryView>) -> Seq<Text>
    decreases list.len(),
{
    if list.len() == 0 {
        Seq::empty()
    } else {
        let some = plain_strings(list.drop_last());
        match list.last() {
            EntryView::Plain(e) => match string_of(e) {
                Some(t) => some.push(t),
                None => some,
            },
            _ => some,
        }
    }
}

/// What a `Require` field asks for, if it is one: a string, or the strings of a
/// table.
pub open spec fn require_field(field: EntryView) -> Option<Seq<Text>> {
    match field {
        EntryView::Named(key, value) => if key == "Require"@ {
            match string_of(value) {
                Some(one) => Some(seq![one]),
                None => match value.kind {
                    KindView::Fields(list) => Some(plain_strings(list)),
                    _ => None,
                },
            }
        } else {
            None
        },
        _ => None,
    }
}

/// What the first of some fields asks for that asks for anything.
pub open spec fn required_by(fields: Seq<EntryView>) -> Seq<Text>
    decreases fields.len(),
{
    if fields.len() == 0 {
        Seq::empty()
    } else {
        match require_field(fields[0]) {
            Some(list) => list,
            None => required_by(fields.drop_first()),
        }
    }
}

/// What the second argument of a declaration asks for.
pub open spec fn required_in(args: Seq<ExprView>) -> Seq<Text> {
    if args.len() > 1 {
        match args[1].kind {
            KindView::Fields(props) => required_by(props),
            _ => Seq::empty(),
        }
    } else {
        Seq::empty()
    }
}

/// The strings without a key in a table.
fn strings_in(list: &Vec<Entry>) -> (r: Vec<String>)
    ensures
        r.deep_view() == plain_strings(list.deep_view()),
{
    let ghost all = list.deep_view();
    let mut out: Vec<String> = Vec::new();
    let mut i: usize = 0;
    assert(all.take(0) =~= Seq::empty());
    assert(out.deep_view() =~= Seq::empty());
    while i < list.len()
        invariant
            all == list.deep_view(),
            i <= all.len(),
            out.deep_view() == plain_strings(all.take(i as int)),
        decreases list.len() - i,
    {
        assert(all.take(i + 1).drop_last() =~= all.take(i as int));
        assert(all[i as int] == list@[i as int].deep_view());
        if let Entry::Plain(e) = &list[i] {
            if let Some(t) = string_value(e) {
                text::push(&mut out, t);
            }
        }
        i = i + 1;
    }
    assert(all.take(i as int) =~= all);
    out
}

/// What a `Require` field asks for.
fn field_requires(field: &Entry) -> (r: Option<Vec<String>>)
    ensures
        r.deep_view() == require_field(field.deep_view()),
{
    if let Entry::Named(key, value) = field {
        if same(key.as_str(), "Require") {
            if let Some(one) = string_value(value) {
                let mut out: Vec<String> = Vec::new();
                text::push(&mut out, one);
                assert(out.deep_view() =~= seq![string_of(value.deep_view())->0]);
                return Some(out);
            }
            if let ExprKind::Fields(list) = &value.kind {
                proof {
                    tree::lemma_fields(*list);
                }
                return Some(strings_in(list));
            }
        }
    }
    None
}

/// What the second argument of a declaration asks for.
pub fn require_from_props(args: &Args) -> (r: Vec<String>)
    ensures
        r.deep_view() == required_in(args_of(args.deep_view())),
{
    if let Some(props) = argument(args, 1) {
        if let ExprKind::Fields(props) = &props.kind {
            let ghost all = props.deep_view();
            proof {
                tree::lemma_fields(*props);
            }
            let mut i: usize = 0;
            assert(all.skip(0) =~= all);
            while i < props.len()
                invariant
                    all == props.deep_view(),
                    i <= all.len(),
                    required_by(all) == required_by(all.skip(i as int)),
                    required_in(args_of(args.deep_view())) == required_by(all),
                decreases props.len() - i,
            {
                assert(all.skip(i as int).drop_first() =~= all.skip(i + 1));
                assert(all[i as int] == props@[i as int].deep_view());
                if let Some(list) = field_requires(&props[i]) {
                    return list;
                }
                i = i + 1;
            }
        }
    }
    let out: Vec<String> = Vec::new();
    assert(out.deep_view() =~= Seq::empty());
    out
}

/// How a file declares its module. The first statement that binds a
/// constructor decides: where its first argument is no string, or it binds no
/// name, the file declares none.
pub open spec fn declared(stmts: Seq<StatementView>) -> Option<DeclarationView>
    decreases stmts.len(),
{
    if stmts.len() == 0 {
        None
    } else {
        match declares(stmts[0]) {
            Some(d) => d,
            None => declared(stmts.drop_first()),
        }
    }
}

/// How a statement declares a module, if it binds a constructor.
pub open spec fn declares(st: StatementView) -> Option<Option<DeclarationView>> {
    match bound_call(st) {
        Some((names, chain)) => match constructor(chain) {
            Some((kind, args)) => Some(
                if args_of(args).len() > 0 && string_of(args_of(args)[0]) is Some && names.len()
                    > 0 {
                    Some(
                        DeclarationView {
                            local: names[0],
                            id: string_of(args_of(args)[0])->0,
                            required: required_in(args_of(args)),
                            kind,
                        },
                    )
                } else {
                    None
                },
            ),
            None => None,
        },
        None => None,
    }
}

/// The first string argument of a call.
fn first_string(args: &Args) -> (r: Option<String>)
    ensures
        r.deep_view() == (if args_of(args.deep_view()).len() > 0 {
            string_of(args_of(args.deep_view())[0])
        } else {
            None
        }),
{
    match argument(args, 0) {
        Some(a) => string_value(a),
        None => None,
    }
}

/// `something.Controller(..)`, and the like.
fn constructs(chain: &Chain) -> (r: Option<(&String, &Args)>)
    ensures
        match r {
            Some((kind, args)) => constructor(chain.deep_view()) == Some((kind@, args.deep_view())),
            None => constructor(chain.deep_view()) is None,
        },
{
    proof {
        tree::lemma_links(*chain);
    }
    if chain.links.len() == 2 {
        assert(chain.deep_view().links[0] == chain.links@[0].deep_view());
        assert(chain.deep_view().links[1] == chain.links@[1].deep_view());
        if let Link::Dot(kind) = &chain.links[0] {
            if let Link::Call(args) = &chain.links[1] {
                if same(kind.as_str(), "Controller") || same(kind.as_str(), "Service") || same(
                    kind.as_str(),
                    "Component",
                ) {
                    return Some((kind, args));
                }
            }
        }
    }
    None
}

/// How a file declares its module.
pub fn declaration(stmts: &Vec<Statement>) -> (r: Option<Declaration>)
    ensures
        r.deep_view() == declared(stmts.deep_view()),
{
    let ghost all = stmts.deep_view();
    let mut i: usize = 0;
    assert(all.skip(0) =~= all);
    while i < stmts.len()
        invariant
            all == stmts.deep_view(),
            i <= all.len(),
            declared(all) == declared(all.skip(i as int)),
        decreases stmts.len() - i,
    {
        assert(all.skip(i as int).drop_first() =~= all.skip(i + 1));
        assert(all[i as int] == stmts@[i as int].deep_view());
        if let Some((names, chain)) = call_bound(&stmts[i]) {
            if let Some((kind, args)) = constructs(chain) {
                return match first_string(args) {
                    Some(id) => if names.len() > 0 {
                        Some(
                            Declaration {
                                local: copy(names[0].as_str()),
                                id,
                                required: require_from_props(args),
                                kind: copy(kind.as_str()),
                            },
                        )
                    } else {
                        None
                    },
                    None => None,
                };
            }
        }
        i = i + 1;
    }
    None
}

/// A method of a module: its name, the function, whether it was declared with
/// a colon, and what its statements hold.
pub struct Found<'a> {
    pub name: String,
    pub body: &'a Body,
    pub colon: bool,
    pub events: Option<&'a Vec<Event>>,
}

/// What a `Found` holds.
pub struct FoundView {
    pub name: Text,
    pub body: BodyView,
    pub colon: bool,
    pub events: Seq<EventView>,
}

impl<'a> DeepView for Found<'a> {
    type V = FoundView;

    open spec fn deep_view(&self) -> FoundView {
        FoundView {
            name: self.name@,
            body: self.body.deep_view(),
            colon: self.colon,
            events: match self.events {
                Some(events) => events.deep_view(),
                None => Seq::empty(),
            },
        }
    }
}

/// The method that a statement gives to `target`: `function target:name()`,
/// `function target.name()` or `target.name = function() .. end`.
pub open spec fn method_of(st: StatementView, target: Text) -> Option<FoundView> {
    match st {
        StatementView::Function(names, method, body, events) => match method {
            Some(method) => if names.len() == 1 && names[0] == target {
                Some(FoundView { name: method, body, colon: true, events })
            } else {
                None
            },
            None => if names.len() == 2 && names[0] == target {
                Some(FoundView { name: names[1], body, colon: false, events })
            } else {
                None
            },
        },
        StatementView::Assign(targets, values, events) => if targets.len() > 0 && values.len() > 0 {
            match (targets[0], values[0].kind) {
                (Some(access), KindView::Function(body)) => match field_of(access, target) {
                    Some(name) => Some(
                        FoundView {
                            name,
                            body,
                            colon: false,
                            events: if events.len() > 0 {
                                events[0]
                            } else {
                                Seq::empty()
                            },
                        },
                    ),
                    None => None,
                },
                _ => None,
            }
        } else {
            None
        },
        _ => None,
    }
}

/// The method that a statement gives to `target`.
pub fn method_body<'a>(st: &'a Statement, target: &str) -> (r: Option<Found<'a>>)
    ensures
        r.deep_view() == method_of(st.deep_view(), target@),
{
    match st {
        Statement::Function(names, method, body, events) => match method {
            Some(method) => if names.len() == 1 && same(names[0].as_str(), target) {
                Some(Found { name: copy(method.as_str()), body, colon: true, events: Some(events) })
            } else {
                None
            },
            None => if names.len() == 2 && same(names[0].as_str(), target) {
                Some(
                    Found {
                        name: copy(names[1].as_str()),
                        body,
                        colon: false,
                        events: Some(events),
                    },
                )
            } else {
                None
            },
        },
        Statement::Assign(targets, values, events) => {
            if targets.len() == 0 || values.len() == 0 {
                return None;
            }
            assert(targets.deep_view()[0] == targets@[0].deep_view());
            assert(values.deep_view()[0] == values@[0].deep_view());
            assert(events@.len() > 0 ==> events.deep_view()[0] == events@[0].deep_view());
            let Some(access) = &targets[0] else {
                return None;
            };
            let ExprKind::Function(body) = &values[0].kind else {
                return None;
            };
            match owned_field(access, target) {
                Some(name) => Some(
                    Found {
                        name,
                        body,
                        colon: false,
                        events: if events.len() > 0 {
                            Some(&events[0])
                        } else {
                            None
                        },
                    },
                ),
                None => None,
            }
        },
        _ => None,
    }
}

/// `x:GetService(..)` or `x.GetService(..)`: the arguments.
pub open spec fn service_args(chain: ChainView) -> Option<ArgsView> {
    if chain.links.len() == 1 {
        match chain.links[0] {
            LinkView::Method(name, args) => if name == "GetService"@ {
                Some(args)
            } else {
                None
            },
            _ => None,
        }
    } else if chain.links.len() == 2 {
        match (chain.links[0], chain.links[1]) {
            (LinkView::Dot(name), LinkView::Call(args)) => if name == "GetService"@ {
                Some(args)
            } else {
                None
            },
            _ => None,
        }
    } else {
        None
    }
}

/// The service that a statement binds a name to.
pub open spec fn service_of(st: StatementView) -> Option<ServiceView> {
    match bound_call(st) {
        Some((names, chain)) => match service_args(chain) {
            Some(args) => if args_of(args).len() > 0 && string_of(args_of(args)[0]) is Some
                && names.len() > 0 {
                Some(ServiceView { alias: names[0], service: string_of(args_of(args)[0])->0 })
            } else {
                None
            },
            None => None,
        },
        None => None,
    }
}

/// The services that statements bind names to, in order.
pub open spec fn services_of(stmts: Seq<StatementView>) -> Seq<ServiceView>
    decreases stmts.len(),
{
    if stmts.len() == 0 {
        Seq::empty()
    } else {
        let some = services_of(stmts.drop_last());
        match service_of(stmts.last()) {
            Some(s) => some.push(s),
            None => some,
        }
    }
}

/// `x:GetService(..)` or `x.GetService(..)`.
fn gets_service(chain: &Chain) -> (r: Option<&Args>)
    ensures
        match r {
            Some(args) => service_args(chain.deep_view()) == Some(args.deep_view()),
            None => service_args(chain.deep_view()) is None,
        },
{
    proof {
        tree::lemma_links(*chain);
    }
    if chain.links.len() == 1 {
        if let Link::Method(name, args) = &chain.links[0] {
            if same(name.as_str(), "GetService") {
                return Some(args);
            }
        }
    } else if chain.links.len() == 2 {
        if let Link::Dot(name) = &chain.links[0] {
            if let Link::Call(args) = &chain.links[1] {
                if same(name.as_str(), "GetService") {
                    return Some(args);
                }
            }
        }
    }
    None
}

/// The service that a statement binds a name to.
fn service_in(st: &Statement) -> (r: Option<Service>)
    ensures
        r.deep_view() == service_of(st.deep_view()),
{
    if let Some((names, chain)) = call_bound(st) {
        if let Some(args) = gets_service(chain) {
            if let Some(service) = first_string(args) {
                if names.len() > 0 {
                    return Some(Service { alias: copy(names[0].as_str()), service });
                }
            }
        }
    }
    None
}

/// The services that statements bind names to.
pub fn services(stmts: &Vec<Statement>) -> (r: Vec<Service>)
    ensures
        r.deep_view() == services_of(stmts.deep_view()),
{
    let ghost all = stmts.deep_view();
    let mut out: Vec<Service> = Vec::new();
    let mut i: usize = 0;
    assert(all.take(0) =~= Seq::empty());
    assert(out.deep_view() =~= Seq::empty());
    while i < stmts.len()
        invariant
            all == stmts.deep_view(),
            i <= all.len(),
            out.deep_view() == services_of(all.take(i as int)),
        decreases stmts.len() - i,
    {
        assert(all.take(i + 1).drop_last() =~= all.take(i as int));
        assert(all[i as int] == stmts@[i as int].deep_view());
        if let Some(s) = service_in(&stmts[i]) {
            text::push(&mut out, s);
        }
        i = i + 1;
    }
    assert(all.take(i as int) =~= all);
    out
}

/// `local x = require(..)`: the name and what is required.
pub open spec fn import_of(st: StatementView) -> Option<ImportView> {
    match bound_call(st) {
        Some((names, chain)) => if chain.head == Some("require"@) && chain.links.len() == 1 {
            match chain.links[0] {
                LinkView::Call(args) => if args_of(args).len() > 0 && names.len() > 0 {
                    Some(
                        ImportView {
                            alias: names[0],
                            expr: syntax::spanned(args_of(args)[0].text),
                        },
                    )
                } else {
                    None
                },
                _ => None,
            }
        } else {
            None
        },
        None => None,
    }
}

/// What statements require, in order.
pub open spec fn imports_of(stmts: Seq<StatementView>) -> Seq<ImportView>
    decreases stmts.len(),
{
    if stmts.len() == 0 {
        Seq::empty()
    } else {
        let some = imports_of(stmts.drop_last());
        match import_of(stmts.last()) {
            Some(s) => some.push(s),
            None => some,
        }
    }
}

/// `local x = require(..)`.
fn import_in(st: &Statement) -> (r: Option<Import>)
    ensures
        r.deep_view() == import_of(st.deep_view()),
{
    if let Some((names, chain)) = call_bound(st) {
        proof {
            tree::lemma_links(*chain);
        }
        if says(&chain.head, "require") && chain.links.len() == 1 {
            if let Link::Call(args) = &chain.links[0] {
                if let Some(arg) = argument(args, 0) {
                    if names.len() > 0 {
                        return Some(Import { alias: copy(names[0].as_str()), expr: span(&arg.text) });
                    }
                }
            }
        }
    }
    None
}

/// What statements require.
pub fn requires_in(stmts: &Vec<Statement>) -> (r: Vec<Import>)
    ensures
        r.deep_view() == imports_of(stmts.deep_view()),
{
    let ghost all = stmts.deep_view();
    let mut out: Vec<Import> = Vec::new();
    let mut i: usize = 0;
    assert(all.take(0) =~= Seq::empty());
    assert(out.deep_view() =~= Seq::empty());
    while i < stmts.len()
        invariant
            all == stmts.deep_view(),
            i <= all.len(),
            out.deep_view() == imports_of(all.take(i as int)),
        decreases stmts.len() - i,
    {
        assert(all.take(i + 1).drop_last() =~= all.take(i as int));
        assert(all[i as int] == stmts@[i as int].deep_view());
        if let Some(s) = import_in(&stmts[i]) {
            text::push(&mut out, s);
        }
        i = i + 1;
    }
    assert(all.take(i as int) =~= all);
    out
}

/// The type that a statement declares.
pub open spec fn type_of(st: StatementView) -> Option<LocalTypeView> {
    match st {
        StatementView::Type(name, node) => Some(
            LocalTypeView { name, text: syntax::spanned(node) },
        ),
        StatementView::ExportedType(name, node) => Some(
            LocalTypeView { name, text: syntax::spanned(node) },
        ),
        _ => None,
    }
}

/// The types that statements declare, in order.
pub open spec fn local_types_of(stmts: Seq<StatementView>) -> Seq<LocalTypeView>
    decreases stmts.len(),
{
    if stmts.len() == 0 {
        Seq::empty()
    } else {
        let some = local_types_of(stmts.drop_last());
        match type_of(stmts.last()) {
            Some(s) => some.push(s),
            None => some,
        }
    }
}

/// The types that statements declare.
pub fn local_types(stmts: &Vec<Statement>) -> (r: Vec<LocalType>)
    ensures
        r.deep_view() == local_types_of(stmts.deep_view()),
{
    let ghost all = stmts.deep_view();
    let mut out: Vec<LocalType> = Vec::new();
    let mut i: usize = 0;
    assert(all.take(0) =~= Seq::empty());
    assert(out.deep_view() =~= Seq::empty());
    while i < stmts.len()
        invariant
            all == stmts.deep_view(),
            i <= all.len(),
            out.deep_view() == local_types_of(all.take(i as int)),
        decreases stmts.len() - i,
    {
        assert(all.take(i + 1).drop_last() =~= all.take(i as int));
        assert(all[i as int] == stmts@[i as int].deep_view());
        match &stmts[i] {
            Statement::Type(name, node) => {
                text::push(&mut out, LocalType { name: copy(name.as_str()), text: span(node) });
            },
            Statement::ExportedType(name, node) => {
                text::push(&mut out, LocalType { name: copy(name.as_str()), text: span(node) });
            },
            _ => {},
        }
        i = i + 1;
    }
    assert(all.take(i as int) =~= all);
    out
}

/// An issue at a place, or at no place known.
pub open spec fn issue_at(at: Option<Spot>, message: Text) -> IssueView {
    match at {
        Some(spot) => IssueView { line: spot.line, column: spot.column, message },
        None => IssueView { line: 0, column: 0, message },
    }
}

/// An issue at a place.
fn issue(at: &Option<Spot>, message: String) -> (r: Issue)
    ensures
        r.deep_view() == issue_at(*at, message@),
{
    match at {
        Some(spot) => Issue { line: spot.line, column: spot.column, message },
        None => Issue { line: 0, column: 0, message },
    }
}

/// A parameter as a signature writes it.
pub open spec fn typed_param(name: Text, ty: Option<Text>) -> Text {
    match ty {
        Some(ty) => name + ": "@ + ty,
        None => name + ": unknown"@,
    }
}

/// The parameters `from..to` as a signature writes them.
pub open spec fn param_parts(body: BodyView, from: int, to: int) -> Seq<Text>
    decreases to - from,
{
    if to <= from {
        Seq::empty()
    } else {
        param_parts(body, from, to - 1).push(
            typed_param(label(body.params[to - 1]), annotation(body.types, to - 1)),
        )
    }
}

/// What there is to say of the parameters `from..to`: each needs a type.
pub open spec fn param_issues(body: BodyView, from: int, to: int) -> Seq<IssueView>
    decreases to - from,
{
    if to <= from {
        Seq::empty()
    } else {
        let some = param_issues(body, from, to - 1);
        match annotation(body.types, to - 1) {
            Some(_) => some,
            None => some.push(
                issue_at(
                    body.at,
                    "parameter `"@ + label(body.params[to - 1]) + "` has no type annotation."@,
                ),
            ),
        }
    }
}

/// The first parameter that a signature writes out. With a dot, a parameter
/// `self` in the first place is the receiver, which is written already.
pub open spec fn first_param(body: BodyView, colon: bool, with_self: bool) -> int {
    if with_self && !colon && body.params.len() > 0 && label(body.params[0]) == "self"@ {
        1
    } else {
        0
    }
}

/// The type of a function. `with_self` puts the receiver in front.
pub open spec fn signature_of(body: BodyView, colon: bool, with_self: bool) -> Text {
    let receiver = if with_self {
        seq!["self: Public"@]
    } else {
        Seq::empty()
    };
    let parts = receiver + param_parts(
        body,
        first_param(body, colon, with_self),
        body.params.len() as int,
    );
    let output = match body.output {
        Some(ty) => syntax::spanned(ty),
        None => "()"@,
    };
    "("@ + text::joined(parts, ", "@) + ") -> "@ + output
}

/// What there is to say of the type of a function.
pub open spec fn signature_issues(body: BodyView, colon: bool, with_self: bool) -> Seq<IssueView> {
    param_issues(body, first_param(body, colon, with_self), body.params.len() as int)
}

/// The type of a function. Parameters without a type are added to the issues.
pub fn signature(body: &Body, colon: bool, with_self: bool, issues: &mut Vec<Issue>) -> (r: String)
    ensures
        r@ == signature_of(body.deep_view(), colon, with_self),
        final(issues).deep_view() == old(issues).deep_view() + signature_issues(
            body.deep_view(),
            colon,
            with_self,
        ),
{
    let ghost was = issues.deep_view();
    let ghost b = body.deep_view();
    let mut parts: Vec<String> = Vec::new();
    let mut first: usize = 0;
    assert(parts.deep_view() =~= Seq::empty());
    if with_self {
        text::push(&mut parts, copy("self: Public"));
        assert(body.params@.len() > 0 ==> b.params[0] == body.params@[0].deep_view());
        if !colon && body.params.len() > 0 && same(param_name(&body.params[0]).as_str(), "self") {
            first = 1;
        }
    }
    let ghost receiver = parts.deep_view();
    proof {
        assert(receiver =~= if with_self {
            seq!["self: Public"@]
        } else {
            Seq::empty()
        });
        assert(receiver =~= receiver + param_parts(b, first as int, first as int));
        assert(was =~= was + param_issues(b, first as int, first as int));
    }
    let mut i: usize = first;
    while i < body.params.len()
        invariant
            b == body.deep_view(),
            first <= i <= b.params.len(),
            parts.deep_view() == receiver + param_parts(b, first as int, i as int),
            issues.deep_view() == was + param_issues(b, first as int, i as int),
        decreases body.params.len() - i,
    {
        let ghost had = param_parts(b, first as int, i as int);
        let ghost said = param_issues(b, first as int, i as int);
        assert(b.params[i as int] == body.params@[i as int].deep_view());
        let name = param_name(&body.params[i]);
        let mut part = copy(name.as_str());
        match annotated(&body.types, i) {
            Some(ty) => {
                part.append(": ");
                part.append(ty.as_str());
            },
            None => {
                let mut message = copy("parameter `");
                message.append(name.as_str());
                message.append("` has no type annotation.");
                let new = issue(&body.at, message);
                let ghost n = new.deep_view();
                text::push(issues, new);
                assert((was + said).push(n) =~= was + said.push(n));
                part.append(": unknown");
            },
        }
        let ghost p = part@;
        text::push(&mut parts, part);
        assert((receiver + had).push(p) =~= receiver + had.push(p));
        i = i + 1;
    }
    let mut out = copy("(");
    out.append(text::join(&parts, ", ").as_str());
    out.append(") -> ");
    match &body.output {
        Some(ty) => {
            out.append(span(ty).as_str());
        },
        None => {
            out.append("()");
        },
    }
    out
}

/// The type of a value, as far as it can be read: the one it is cast to, the
/// one a parameter of this name has, or that of a literal, widened.
pub open spec fn type_of_value(value: ExprView, known: Rows<Text>) -> Option<Text> {
    match value.kind {
        KindView::Name(name) => table::get(known, name),
        KindView::Cast(ty) => Some(syntax::spanned(ty)),
        KindView::Literal(_) => Some("string"@),
        KindView::Number => Some("number"@),
        KindView::Symbol(s) => if s == "true"@ || s == "false"@ {
            Some("boolean"@)
        } else {
            None
        },
        KindView::Function(body) => Some(signature_of(body, false, false)),
        _ => None,
    }
}

/// What there is to say of a value: that it has no type, or what there is to
/// say of the function that it is.
pub open spec fn value_issues(value: ExprView, place: Text, known: Rows<Text>) -> Seq<IssueView> {
    match value.kind {
        KindView::Function(body) => signature_issues(body, false, false),
        _ => match type_of_value(value, known) {
            Some(_) => Seq::empty(),
            None => seq![
                issue_at(
                    value.at,
                    place
                        + " has no type. Annotate it with `::` so the generator can transcribe it."@,
                ),
            ],
        },
    }
}

/// The type of a value that is neither a function nor a name.
fn plain_type(value: &Expr) -> (r: Option<String>)
    ensures
        !(value.kind is Function) && !(value.kind is Name) ==> forall|known: Rows<Text>|
            r.deep_view() == #[trigger] type_of_value(value.deep_view(), known),
{
    match &value.kind {
        ExprKind::Cast(ty) => Some(span(ty)),
        ExprKind::Literal(_) => Some(copy("string")),
        ExprKind::Number => Some(copy("number")),
        ExprKind::Symbol(s) => if same(s.as_str(), "true") || same(s.as_str(), "false") {
            Some(copy("boolean"))
        } else {
            None
        },
        _ => None,
    }
}

/// The type of a value, as far as it can be read. A value without one is added
/// to the issues.
pub fn value_type(
    value: &Expr,
    place: &str,
    known: &Table<String>,
    issues: &mut Vec<Issue>,
) -> (r: Option<String>)
    ensures
        r.deep_view() == type_of_value(value.deep_view(), known@),
        final(issues).deep_view() == old(issues).deep_view() + value_issues(
            value.deep_view(),
            place@,
            known@,
        ),
{
    let ghost was = issues.deep_view();
    let found = match &value.kind {
        ExprKind::Function(body) => {
            return Some(signature(body, false, false, issues));
        },
        ExprKind::Name(name) => match known.get(name.as_str()) {
            Some(ty) => Some(copy(ty.as_str())),
            None => None,
        },
        _ => plain_type(value),
    };
    if found.is_none() {
        let mut message = copy(place);
        message.append(" has no type. Annotate it with `::` so the generator can transcribe it.");
        let new = issue(&value.at, message);
        let ghost n = new.deep_view();
        text::push(issues, new);
        assert(was.push(n) =~= was + seq![n]);
    } else {
        assert(was =~= was + Seq::empty());
    }
    found
}

/// What the methods of a module show.
pub struct Gathered {
    pub methods: Vec<Method>,
    pub fields: Table<String>,
    pub deps: Vec<String>,
    pub issues: Vec<Issue>,
}

/// What a `Gathered` holds.
pub struct GatheredView {
    pub methods: Seq<(Text, Text)>,
    pub fields: Rows<Text>,
    pub deps: Seq<Text>,
    pub issues: Seq<IssueView>,
}

impl View for Gathered {
    type V = GatheredView;

    open spec fn view(&self) -> GatheredView {
        GatheredView {
            methods: self.methods.deep_view(),
            fields: self.fields@,
            deps: self.deps.deep_view(),
            issues: self.issues.deep_view(),
        }
    }
}

/// `self.name = value` has been read. The first assignment to a field that has
/// a type gives the field its type.
pub open spec fn with_field(
    g: GatheredView,
    name: Text,
    value: ExprView,
    known: Rows<Text>,
) -> GatheredView {
    if table::get(g.fields, name) is Some {
        g
    } else {
        GatheredView {
            fields: match type_of_value(value, known) {
                Some(ty) => table::put(g.fields, name, ty),
                None => g.fields,
            },
            issues: g.issues + value_issues(value, "self."@ + name, known),
            ..g
        }
    }
}

/// The first `n` targets of an assignment have been read, each with its value.
pub open spec fn with_targets(
    g: GatheredView,
    targets: Seq<Option<AccessView>>,
    values: Seq<ExprView>,
    n: int,
    known: Rows<Text>,
) -> GatheredView
    decreases n,
{
    if n <= 0 {
        g
    } else {
        let some = with_targets(g, targets, values, n - 1, known);
        match targets[n - 1] {
            Some(access) => match field_of(access, "self"@) {
                Some(name) => with_field(some, name, values[n - 1], known),
                None => some,
            },
            None => some,
        }
    }
}

/// How many targets of an assignment have a value.
pub open spec fn pairs(targets: Seq<Option<AccessView>>, values: Seq<ExprView>) -> int {
    if targets.len() < values.len() {
        targets.len() as int
    } else {
        values.len() as int
    }
}

/// An access or a call has been read.
pub open spec fn with_access(g: GatheredView, access: AccessView) -> GatheredView {
    match dependency(access) {
        Some(d) => GatheredView { deps: table::with_text(g.deps, d), ..g },
        None => g,
    }
}

/// What the statements of a method hold has been read.
pub open spec fn with_events(
    g: GatheredView,
    events: Seq<EventView>,
    known: Rows<Text>,
) -> GatheredView
    decreases events.len(),
{
    if events.len() == 0 {
        g
    } else {
        let some = with_events(g, events.drop_last(), known);
        match events.last() {
            EventView::Assign(targets, values) => with_targets(
                some,
                targets,
                values,
                pairs(targets, values),
                known,
            ),
            EventView::Access(access) => with_access(some, access),
            EventView::Call(access) => with_access(some, access),
        }
    }
}

/// A method has been read.
pub open spec fn with_method(g: GatheredView, m: FoundView) -> GatheredView {
    with_events(
        GatheredView {
            methods: g.methods.push((m.name, signature_of(m.body, m.colon, true))),
            issues: g.issues + signature_issues(m.body, m.colon, true),
            ..g
        },
        m.events,
        typed(m.body.params, m.body.types),
    )
}

/// The methods that statements give to `target` have been read.
pub open spec fn with_statements(
    g: GatheredView,
    stmts: Seq<StatementView>,
    target: Text,
) -> GatheredView
    decreases stmts.len(),
{
    if stmts.len() == 0 {
        g
    } else {
        let some = with_statements(g, stmts.drop_last(), target);
        match method_of(stmts.last(), target) {
            Some(m) => with_method(some, m),
            None => some,
        }
    }
}

impl Gathered {
    /// The fields stand in order.
    pub open spec fn wf(&self) -> bool {
        self.fields.wf()
    }

    /// Reads `self.name = value`.
    fn field(&mut self, name: &str, value: &Expr, known: &Table<String>)
        requires
            old(self).wf(),
        ensures
            final(self).wf(),
            final(self)@ == with_field(old(self)@, name@, value.deep_view(), known@),
    {
        if self.fields.get(name).is_some() {
            return;
        }
        let mut place = copy("self.");
        place.append(name);
        if let Some(ty) = value_type(value, place.as_str(), known, &mut self.issues) {
            self.fields.put(name, ty);
        }
    }

    /// Reads an assignment.
    fn assignment(
        &mut self,
        targets: &Vec<Option<Access>>,
        values: &Vec<Expr>,
        known: &Table<String>,
    )
        requires
            old(self).wf(),
        ensures
            final(self).wf(),
            final(self)@ == with_targets(
                old(self)@,
                targets.deep_view(),
                values.deep_view(),
                pairs(targets.deep_view(), values.deep_view()),
                known@,
            ),
    {
        let ghost was = self@;
        let ghost ts = targets.deep_view();
        let ghost vs = values.deep_view();
        let mut i: usize = 0;
        while i < targets.len() && i < values.len()
            invariant
                ts == targets.deep_view(),
                vs == values.deep_view(),
                i <= ts.len(),
                i <= vs.len(),
                self.wf(),
                self@ == with_targets(was, ts, vs, i as int, known@),
            decreases targets.len() - i,
        {
            assert(ts[i as int] == targets@[i as int].deep_view());
            assert(vs[i as int] == values@[i as int].deep_view());
            if let Some(access) = &targets[i] {
                if let Some(name) = self_field(access) {
                    self.field(name.as_str(), &values[i], known);
                }
            }
            i = i + 1;
        }
    }

    /// Reads an access or a call.
    fn access(&mut self, access: &Access)
        requires
            old(self).wf(),
        ensures
            final(self).wf(),
            final(self)@ == with_access(old(self)@, access.deep_view()),
    {
        if let Some(d) = dependency_read(access) {
            table::add_to(&mut self.deps, d.as_str());
        }
    }

    /// Reads what the statements of a method hold.
    pub fn scan(&mut self, events: &Vec<Event>, known: &Table<String>)
        requires
            old(self).wf(),
        ensures
            final(self).wf(),
            final(self)@ == with_events(old(self)@, events.deep_view(), known@),
    {
        let ghost was = self@;
        let ghost all = events.deep_view();
        let mut i: usize = 0;
        assert(all.take(0) =~= Seq::empty());
        while i < events.len()
            invariant
                all == events.deep_view(),
                i <= all.len(),
                self.wf(),
                self@ == with_events(was, all.take(i as int), known@),
            decreases events.len() - i,
        {
            assert(all.take(i + 1).drop_last() =~= all.take(i as int));
            assert(all[i as int] == events@[i as int].deep_view());
            match &events[i] {
                Event::Assign(targets, values) => self.assignment(targets, values, known),
                Event::Access(access) => self.access(access),
                Event::Call(access) => self.access(access),
            }
            i = i + 1;
        }
        assert(all.take(i as int) =~= all);
    }

    /// Reads a method.
    fn method(&mut self, m: Found<'_>)
        requires
            old(self).wf(),
        ensures
            final(self).wf(),
            final(self)@ == with_method(old(self)@, m.deep_view()),
    {
        let ghost was = self@;
        let signature = signature(m.body, m.colon, true, &mut self.issues);
        let known = typed_parameters(m.body);
        text::push(&mut self.methods, Method { name: m.name, signature });
        match m.events {
            Some(events) => self.scan(events, &known),
            None => {},
        }
    }

    /// Reads the methods that statements give to `target`.
    pub fn statements(&mut self, stmts: &Vec<Statement>, target: &str)
        requires
            old(self).wf(),
        ensures
            final(self).wf(),
            final(self)@ == with_statements(old(self)@, stmts.deep_view(), target@),
    {
        let ghost was = self@;
        let ghost all = stmts.deep_view();
        let mut i: usize = 0;
        assert(all.take(0) =~= Seq::empty());
        while i < stmts.len()
            invariant
                all == stmts.deep_view(),
                i <= all.len(),
                self.wf(),
                self@ == with_statements(was, all.take(i as int), target@),
            decreases stmts.len() - i,
        {
            assert(all.take(i + 1).drop_last() =~= all.take(i as int));
            assert(all[i as int] == stmts@[i as int].deep_view());
            if let Some(m) = method_body(&stmts[i], target) {
                self.method(m);
            }
            i = i + 1;
        }
        assert(all.take(i as int) =~= all);
    }
}

/// A file that declares no module.
#[derive(Debug)]
pub struct NoCall {
    pub file: String,
}

/// What there is to say of a file that declares no module.
pub open spec fn no_call(file: Text) -> Text {
    file + ": no call to Controller, Service or Component found"@
}

impl NoCall {
    /// What there is to say of the file.
    pub fn message(&self) -> (r: String)
        ensures
            r@ == no_call(self.file@),
    {
        let mut out = copy(self.file.as_str());
        out.append(": no call to Controller, Service or Component found");
        out
    }
}

/// What there is to say of a file that does not parse.
pub open spec fn broken_issues(broken: Option<SyntaxView>) -> Seq<IssueView> {
    match broken {
        Some(b) => seq![
            IssueView {
                line: match b.line {
                    Some(n) => n,
                    None => 0,
                },
                column: 0,
                message: "file does not parse yet; typed from what was readable"@,
            },
        ],
        None => Seq::empty(),
    }
}

/// The module that a file declares with these statements. A file that does not
/// parse is read as far as there are statements, and says so first.
pub open spec fn extraction(
    path: Text,
    stmts: Seq<StatementView>,
    broken: Option<SyntaxView>,
) -> Option<ModuleView> {
    match declared(stmts) {
        Some(d) => {
            let start = GatheredView {
                methods: Seq::empty(),
                fields: Seq::empty(),
                deps: Seq::empty(),
                issues: broken_issues(broken),
            };
            let g = with_statements(start, stmts, d.local);
            Some(
                ModuleView {
                    id: d.id,
                    kind: d.kind,
                    file: text::replaced(path, '\\', '/'),
                    services: services_of(stmts),
                    requires: imports_of(stmts),
                    local_types: local_types_of(stmts),
                    methods: g.methods,
                    fields: g.fields,
                    dependencies: g.deps,
                    declared_require: d.required,
                    issues: g.issues,
                },
            )
        },
        None => None,
    }
}

/// The fields of a module, in order.
fn fields_of(table: &Table<String>) -> (r: Vec<Field>)
    ensures
        r.deep_view() == table@,
{
    let mut out: Vec<Field> = Vec::new();
    let n: usize = table.len();
    let mut i: usize = 0;
    while i < n
        invariant
            i <= n == table@.len(),
            out.deep_view() =~= table@.take(i as int),
        decreases n - i,
    {
        let ghost row = table@[i as int];
        text::push(
            &mut out,
            Field { name: copy(table.key(i).as_str()), ty: copy(table.value(i).as_str()) },
        );
        assert(table@.take(i + 1) =~= table@.take(i as int).push(row));
        i = i + 1;
    }
    assert(table@.take(i as int) =~= table@);
    out
}

/// A file to read a module from, parsed.
pub struct Extractor {
    pub path: String,
    pub source: Parsed,
    pub broken: Option<Syntax>,
}

impl Extractor {
    /// The module that the file declares.
    pub open spec fn found(&self) -> Option<ModuleView> {
        extraction(self.path@, self.source.stmts.deep_view(), self.broken.deep_view())
    }

    /// Parses a file with this text.
    pub fn new(path: &str, text: &str) -> (r: Extractor)
        ensures
            r.path@ == path@,
            r.source.deep_view() == syntax::parsed(text@),
            r.broken.deep_view() == syntax::fault_in(path@, text@),
    {
        let (source, broken) = syntax::parse(path, text);
        Extractor { path: copy(path), source, broken }
    }

    /// The module that the file declares. A file that declares none is refused.
    pub fn run(self) -> (r: Result<Module, NoCall>)
        ensures
            match r {
                Ok(m) => self.found() == Some(m.deep_view()),
                Err(e) => self.found() is None && e.file@ == self.path@,
            },
    {
        let stmts = &self.source.stmts;
        let Some(d) = declaration(stmts) else {
            return Err(NoCall { file: self.path });
        };
        let mut issues: Vec<Issue> = Vec::new();
        assert(issues.deep_view() =~= Seq::empty());
        if let Some(broken) = &self.broken {
            let line: usize = match broken.line {
                Some(n) => n,
                None => 0,
            };
            text::push(
                &mut issues,
                Issue {
                    line,
                    column: 0,
                    message: copy("file does not parse yet; typed from what was readable"),
                },
            );
        }
        assert(issues.deep_view() =~= broken_issues(self.broken.deep_view()));
        let mut g = Gathered {
            methods: Vec::new(),
            fields: Table::new(),
            deps: Vec::new(),
            issues,
        };
        assert(g.methods.deep_view() =~= Seq::empty());
        assert(g.deps.deep_view() =~= Seq::empty());
        g.statements(stmts, d.local.as_str());
        let fields = fields_of(&g.fields);
        Ok(
            Module {
                id: d.id,
                kind: d.kind,
                file: text::replace(self.path.as_str(), '\\', '/'),
                services: services(stmts),
                requires: requires_in(stmts),
                local_types: local_types(stmts),
                methods: g.methods,
                fields,
                dependencies: g.deps,
                declared_require: d.required,
                issues: g.issues,
            },
        )
    }
}

/// A literal gives its field a type of its own kind, whatever it is: two
/// numbers have the same type, and so do two strings and the two booleans.
pub proof fn law_literal_widens(value: ExprView, known: Rows<Text>)
    ensures
        value.kind is Number ==> type_of_value(value, known) == Some("number"@),
        value.kind is Literal ==> type_of_value(value, known) == Some("string"@),
        value.kind matches KindView::Symbol(s) && (s == "true"@ || s == "false"@)
            ==> type_of_value(value, known) == Some("boolean"@),
{
}

/// A field whose value has no type that can be read is left out, and said.
pub proof fn law_untyped_field_is_said(
    g: GatheredView,
    name: Text,
    value: ExprView,
    known: Rows<Text>,
)
    requires
        table::get(g.fields, name) is None,
        type_of_value(value, known) is None,
    ensures
        with_field(g, name, value, known).fields == g.fields,
        with_field(g, name, value, known).issues == g.issues.push(
            issue_at(
                value.at,
                "self."@ + name
                    + " has no type. Annotate it with `::` so the generator can transcribe it."@,
            ),
        ),
{
    assert(with_field(g, name, value, known).issues =~= g.issues.push(
        issue_at(
            value.at,
            "self."@ + name
                + " has no type. Annotate it with `::` so the generator can transcribe it."@,
        ),
    ));
}

/// A method takes its receiver first.
pub proof fn law_method_takes_self(body: BodyView, colon: bool)
    ensures
        "(self: Public"@.is_prefix_of(signature_of(body, colon, true)),
{
    reveal_strlit("(self: Public");
    reveal_strlit("(");
    reveal_strlit("self: Public");
    let parts = seq!["self: Public"@] + param_parts(
        body,
        first_param(body, colon, true),
        body.params.len() as int,
    );
    lemma_joined_head(parts, ", "@);
    let inner = text::joined(parts, ", "@);
    let sig = signature_of(body, colon, true);
    assert(sig.subrange(0, "(self: Public"@.len() as int) =~= "(self: Public"@) by {
        assert(inner.subrange(0, parts[0].len() as int) == parts[0]);
        assert forall|i: int| 0 <= i < 13 implies sig[i] == "(self: Public"@[i] by {
            if i > 0 {
                assert(inner.subrange(0, 12)[i - 1] == inner[i - 1]);
            }
        }
    }
}

proof fn lemma_joined_head(parts: Seq<Text>, sep: Text)
    requires
        parts.len() > 0,
    ensures
        parts[0].is_prefix_of(text::joined(parts, sep)),
    decreases parts.len(),
{
    let all = text::joined(parts, sep);
    if parts.len() == 1 {
        assert(all.subrange(0, parts[0].len() as int) =~= parts[0]);
    } else {
        lemma_joined_head(parts.drop_last(), sep);
        let lead = text::joined(parts.drop_last(), sep);
        assert(lead.subrange(0, parts[0].len() as int) == parts[0]);
        assert(all.subrange(0, parts[0].len() as int) =~= lead.subrange(0, parts[0].len() as int));
    }
}

/// What has been gathered stays: a field keeps the type that it got first, a
/// dependency is kept, and the fields and dependencies stay in order.
spec fn grows(g: GatheredView, h: GatheredView) -> bool {
    &&& table::sorted(g.fields) ==> table::sorted(h.fields)
    &&& table::sorted(g.fields) ==> forall|n: Text| #[trigger]
        table::get(g.fields, n) is Some ==> table::get(h.fields, n) == table::get(g.fields, n)
    &&& table::in_order(g.deps) ==> table::in_order(h.deps)
}

proof fn lemma_field_grows(g: GatheredView, name: Text, value: ExprView, known: Rows<Text>)
    ensures
        grows(g, with_field(g, name, value, known)),
{
    if table::sorted(g.fields) && table::get(g.fields, name) is None {
        if let Some(ty) = type_of_value(value, known) {
            table::law_put_sorted(g.fields, name, ty);
            assert forall|n: Text| #[trigger] table::get(g.fields, n) is Some implies table::get(
                table::put(g.fields, name, ty),
                n,
            ) == table::get(g.fields, n) by {
                table::law_get_put(g.fields, name, ty, n);
            }
        }
    }
}

proof fn lemma_targets_grow(
    g: GatheredView,
    targets: Seq<Option<AccessView>>,
    values: Seq<ExprView>,
    n: int,
    known: Rows<Text>,
)
    ensures
        grows(g, with_targets(g, targets, values, n, known)),
        with_targets(g, targets, values, n, known).deps == g.deps,
    decreases n,
{
    if n > 0 {
        lemma_targets_grow(g, targets, values, n - 1, known);
        let some = with_targets(g, targets, values, n - 1, known);
        if let Some(access) = targets[n - 1] {
            if let Some(name) = field_of(access, "self"@) {
                lemma_field_grows(some, name, values[n - 1], known);
            }
        }
    }
}

proof fn lemma_access_grows(g: GatheredView, access: AccessView)
    ensures
        grows(g, with_access(g, access)),
        table::in_order(g.deps) ==> forall|d: Text| #[trigger]
            with_access(g, access).deps.contains(d) <==> (g.deps.contains(d) || dependency(access)
                == Some(d)),
{
    if let Some(d) = dependency(access) {
        if table::in_order(g.deps) {
            table::law_with_text(g.deps, d);
        }
    }
}

/// An event shows that a method uses `d`: it reads or calls through
/// `self.Dependencies.d`.
pub open spec fn shows(e: EventView, d: Text) -> bool {
    match e {
        EventView::Assign(_, _) => false,
        EventView::Access(access) => dependency(access) == Some(d),
        EventView::Call(access) => dependency(access) == Some(d),
    }
}

/// Some of the events show that a method uses `d`.
pub open spec fn uses(events: Seq<EventView>, d: Text) -> bool {
    exists|i: int| 0 <= i < events.len() && #[trigger] shows(events[i], d)
}

proof fn lemma_uses_last(events: Seq<EventView>, d: Text)
    requires
        events.len() > 0,
    ensures
        uses(events, d) <==> (uses(events.drop_last(), d) || shows(events.last(), d)),
{
    let some = events.drop_last();
    if uses(events, d) {
        let i = choose|i: int| 0 <= i < events.len() && #[trigger] shows(events[i], d);
        if i < some.len() {
            assert(shows(some[i], d));
        }
    }
    if uses(some, d) {
        let i = choose|i: int| 0 <= i < some.len() && #[trigger] shows(some[i], d);
        assert(shows(events[i], d));
    }
    if shows(events.last(), d) {
        assert(shows(events[events.len() - 1], d));
    }
}

proof fn lemma_events_grow(g: GatheredView, events: Seq<EventView>, known: Rows<Text>)
    ensures
        grows(g, with_events(g, events, known)),
        table::in_order(g.deps) ==> forall|d: Text| #[trigger]
            with_events(g, events, known).deps.contains(d) <==> (g.deps.contains(d) || uses(
                events,
                d,
            )),
    decreases events.len(),
{
    if events.len() > 0 {
        lemma_events_grow(g, events.drop_last(), known);
        let some = with_events(g, events.drop_last(), known);
        match events.last() {
            EventView::Assign(targets, values) => {
                lemma_targets_grow(
                    some,
                    targets,
                    values,
                    pairs(targets, values),
                    known,
                );
            },
            EventView::Access(access) => {
                lemma_access_grows(some, access);
            },
            EventView::Call(access) => {
                lemma_access_grows(some, access);
            },
        }
        assert forall|d: Text| #[trigger]
            uses(events, d) <==> (uses(events.drop_last(), d) || shows(events.last(), d)) by {
            lemma_uses_last(events, d);
        }
    }
}

/// One of the methods that statements give to `target` uses `d`.
pub open spec fn some_method_uses(stmts: Seq<StatementView>, target: Text, d: Text) -> bool {
    exists|i: int|
        0 <= i < stmts.len() && (#[trigger] method_of(stmts[i], target) matches Some(m) && uses(
            m.events,
            d,
        ))
}

proof fn lemma_some_method_uses_last(stmts: Seq<StatementView>, target: Text, d: Text)
    requires
        stmts.len() > 0,
    ensures
        some_method_uses(stmts, target, d) <==> (some_method_uses(stmts.drop_last(), target, d) || (
        method_of(stmts.last(), target) matches Some(m) && uses(m.events, d))),
{
    let some = stmts.drop_last();
    if some_method_uses(stmts, target, d) {
        let i = choose|i: int|
            0 <= i < stmts.len() && (#[trigger] method_of(stmts[i], target) matches Some(m)
                && uses(m.events, d));
        if i < some.len() {
            assert(method_of(some[i], target) matches Some(m) && uses(m.events, d));
        }
    }
    if some_method_uses(some, target, d) {
        let i = choose|i: int|
            0 <= i < some.len() && (#[trigger] method_of(some[i], target) matches Some(m) && uses(
                m.events,
                d,
            ));
        assert(method_of(stmts[i], target) matches Some(m) && uses(m.events, d));
    }
    if method_of(stmts.last(), target) matches Some(m) && uses(m.events, d) {
        assert(method_of(stmts[stmts.len() - 1], target) matches Some(m) && uses(m.events, d));
    }
}

proof fn lemma_statements_grow(g: GatheredView, stmts: Seq<StatementView>, target: Text)
    ensures
        grows(g, with_statements(g, stmts, target)),
        table::in_order(g.deps) ==> forall|d: Text| #[trigger]
            with_statements(g, stmts, target).deps.contains(d) <==> (g.deps.contains(d)
                || some_method_uses(stmts, target, d)),
    decreases stmts.len(),
{
    if stmts.len() > 0 {
        lemma_statements_grow(g, stmts.drop_last(), target);
        let some = with_statements(g, stmts.drop_last(), target);
        if let Some(m) = method_of(stmts.last(), target) {
            let told = GatheredView {
                methods: some.methods.push((m.name, signature_of(m.body, m.colon, true))),
                issues: some.issues + signature_issues(m.body, m.colon, true),
                ..some
            };
            lemma_events_grow(told, m.events, typed(m.body.params, m.body.types));
        }
        assert forall|d: Text| #[trigger]
            some_method_uses(stmts, target, d) <==> (some_method_uses(stmts.drop_last(), target, d)
                || (method_of(stmts.last(), target) matches Some(m) && uses(m.events, d))) by {
            lemma_some_method_uses_last(stmts, target, d);
        }
    }
}

/// The first assignment that gives a field a type decides: what is read later
/// does not change it.
pub proof fn law_first_type_stays(
    g: GatheredView,
    stmts: Seq<StatementView>,
    target: Text,
    name: Text,
)
    requires
        table::sorted(g.fields),
        table::get(g.fields, name) is Some,
    ensures
        table::get(with_statements(g, stmts, target).fields, name) == table::get(g.fields, name),
{
    lemma_statements_grow(g, stmts, target);
}

/// A module's dependencies are what its methods reach through
/// `self.Dependencies`, each once and in order, and its fields stand in order.
pub proof fn law_dependencies_are_uses(
    path: Text,
    stmts: Seq<StatementView>,
    broken: Option<SyntaxView>,
)
    requires
        extraction(path, stmts, broken) is Some,
    ensures
        table::in_order(extraction(path, stmts, broken)->0.dependencies),
        table::sorted(extraction(path, stmts, broken)->0.fields),
        forall|d: Text| #[trigger]
            extraction(path, stmts, broken)->0.dependencies.contains(d) <==> some_method_uses(
                stmts,
                declared(stmts)->0.local,
                d,
            ),
{
    let start = GatheredView {
        methods: Seq::empty(),
        fields: Seq::empty(),
        deps: Seq::empty(),
        issues: broken_issues(broken),
    };
    lemma_statements_grow(start, stmts, declared(stmts)->0.local);
}

/// The same, with more said before.
spec fn after_saying(first: Seq<IssueView>, g: GatheredView) -> GatheredView {
    GatheredView { issues: first + g.issues, ..g }
}

proof fn lemma_field_after(
    first: Seq<IssueView>,
    g: GatheredView,
    name: Text,
    value: ExprView,
    known: Rows<Text>,
)
    ensures
        with_field(after_saying(first, g), name, value, known) == after_saying(
            first,
            with_field(g, name, value, known),
        ),
{
    let new = value_issues(value, "self."@ + name, known);
    assert((first + g.issues) + new =~= first + (g.issues + new));
}

proof fn lemma_targets_after(
    first: Seq<IssueView>,
    g: GatheredView,
    targets: Seq<Option<AccessView>>,
    values: Seq<ExprView>,
    n: int,
    known: Rows<Text>,
)
    ensures
        with_targets(after_saying(first, g), targets, values, n, known) == after_saying(
            first,
            with_targets(g, targets, values, n, known),
        ),
    decreases n,
{
    if n > 0 {
        lemma_targets_after(first, g, targets, values, n - 1, known);
        let some = with_targets(g, targets, values, n - 1, known);
        if let Some(access) = targets[n - 1] {
            if let Some(name) = field_of(access, "self"@) {
                lemma_field_after(first, some, name, values[n - 1], known);
            }
        }
    }
}

proof fn lemma_events_after(
    first: Seq<IssueView>,
    g: GatheredView,
    events: Seq<EventView>,
    known: Rows<Text>,
)
    ensures
        with_events(after_saying(first, g), events, known) == after_saying(
            first,
            with_events(g, events, known),
        ),
    decreases events.len(),
{
    if events.len() > 0 {
        lemma_events_after(first, g, events.drop_last(), known);
        let some = with_events(g, events.drop_last(), known);
        if let EventView::Assign(targets, values) = events.last() {
            lemma_targets_after(
                first,
                some,
                targets,
                values,
                pairs(targets, values),
                known,
            );
        }
    }
}

proof fn lemma_statements_after(
    first: Seq<IssueView>,
    g: GatheredView,
    stmts: Seq<StatementView>,
    target: Text,
)
    ensures
        with_statements(after_saying(first, g), stmts, target) == after_saying(
            first,
            with_statements(g, stmts, target),
        ),
    decreases stmts.len(),
{
    if stmts.len() > 0 {
        lemma_statements_after(first, g, stmts.drop_last(), target);
        let some = with_statements(g, stmts.drop_last(), target);
        if let Some(m) = method_of(stmts.last(), target) {
            let new = signature_issues(m.body, m.colon, true);
            let told = GatheredView {
                methods: some.methods.push((m.name, signature_of(m.body, m.colon, true))),
                issues: some.issues + new,
                ..some
            };
            assert((first + some.issues) + new =~= first + (some.issues + new));
            lemma_events_after(first, told, m.events, typed(m.body.params, m.body.types));
        }
    }
}

/// A file that does not parse loses nothing of what could be read: the module is
/// the one that the same statements make in a file that does, and says so first.
pub proof fn law_broken_file_keeps_its_types(
    path: Text,
    stmts: Seq<StatementView>,
    broken: SyntaxView,
)
    ensures
        match (extraction(path, stmts, Some(broken)), extraction(path, stmts, None)) {
            (Some(m), Some(n)) => m == (ModuleView {
                issues: broken_issues(Some(broken)) + n.issues,
                ..n
            }),
            (None, None) => true,
            _ => false,
        },
{
    if let Some(d) = declared(stmts) {
        let start = GatheredView {
            methods: Seq::empty(),
            fields: Seq::empty(),
            deps: Seq::empty(),
            issues: Seq::empty(),
        };
        lemma_statements_after(broken_issues(Some(broken)), start, stmts, d.local);
        assert(broken_issues(Some(broken)) + Seq::<IssueView>::empty() =~= broken_issues(
            Some(broken),
        ));
    }
}

} // verus!
