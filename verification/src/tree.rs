//! A Luau file as plain values: as much of the parser's tree as the extractor
//! reads.

use full_moon::ast;
use full_moon::node::{Node, Tokens};
use full_moon::tokenizer::{Lexer, LexerResult, Position, TokenReference, TokenizerError};
use full_moon::visitors::{Visit, Visitor};
use vstd::prelude::*;

use crate::text::Text;

verus! {

/// A place in a file.
#[derive(Debug, Clone, Copy, PartialEq, Eq, Structural)]
pub struct Spot {
    pub line: usize,
    pub column: usize,
}

/// What the lexer says of a piece of a text that is no token: its bytes, the line
/// that it is on, and the words.
#[derive(Debug)]
pub struct Fault {
    pub from: usize,
    pub to: usize,
    pub line: usize,
    pub message: String,
}

/// What a `Fault` holds.
pub struct FaultView {
    pub from: usize,
    pub to: usize,
    pub line: usize,
    pub message: Text,
}

impl DeepView for Fault {
    type V = FaultView;

    open spec fn deep_view(&self) -> FaultView {
        FaultView { from: self.from, to: self.to, line: self.line, message: self.message@ }
    }
}

/// What the lexer makes of a piece of a text.
#[derive(Debug)]
pub enum Lexed {
    /// A token, as it stands or mended.
    Fine,
    /// No token.
    Fatal(Vec<Fault>),
}

/// What a `Lexed` holds.
pub enum LexedView {
    Fine,
    Fatal(Seq<FaultView>),
}

impl DeepView for Lexed {
    type V = LexedView;

    open spec fn deep_view(&self) -> LexedView {
        match self {
            Lexed::Fine => LexedView::Fine,
            Lexed::Fatal(faults) => LexedView::Fatal(faults.deep_view()),
        }
    }
}

/// A node as it prints, and the white space and comments before its first token
/// and after its last one.
pub struct Rendered {
    pub full: String,
    pub lead: String,
    pub trail: String,
}

/// An expression.
pub struct Expr {
    pub at: Option<Spot>,
    pub text: Rendered,
    pub kind: ExprKind,
}

/// What an expression is.
pub enum ExprKind {
    /// A name on its own.
    Name(String),
    /// A string, as it is written.
    Literal(String),
    Number,
    /// A keyword that stands for a value, such as `true`.
    Symbol(String),
    Function(Body),
    /// `expression :: type`: the type.
    Cast(Rendered),
    Call(Chain),
    Fields(Vec<Entry>),
    Other,
}

/// A field of a table.
pub enum Entry {
    /// `name = value`.
    Named(String, Expr),
    /// A value without a key.
    Plain(Expr),
    Other,
}

/// A call: the name that it starts with, unless something else stands there,
/// and what follows.
pub struct Chain {
    pub head: Option<String>,
    pub links: Vec<Link>,
}

/// One link of a call or index chain: `a.b:c(x)` reads as a dot and a method.
pub enum Link {
    Dot(String),
    Method(String, Args),
    Call(Args),
    Other,
}

/// The arguments of a call.
pub enum Args {
    /// Those between parentheses.
    List(Vec<Expr>),
    /// A string or a table without parentheses.
    Other,
}

/// An access or a call, of which only the names count: the name that it starts
/// with, and for each link the name behind the dot, if it is one.
pub struct Access {
    pub head: Option<String>,
    pub dots: Vec<Option<String>>,
}

/// A parameter.
pub enum Param {
    Name(String),
    Other,
}

/// A function, without its name and its statements.
pub struct Body {
    pub at: Option<Spot>,
    pub params: Vec<Param>,
    /// What is annotated at each parameter.
    pub types: Vec<Option<Rendered>>,
    pub output: Option<Rendered>,
}

/// Something met on the way through the statements of a function, and of the
/// functions inside it.
pub enum Event {
    /// `targets = values`. A target that is a name on its own is `None`.
    Assign(Vec<Option<Access>>, Vec<Expr>),
    /// An access, such as `self.x.y`.
    Access(Access),
    /// A call.
    Call(Access),
}

/// A statement.
pub enum Statement {
    /// `local names = values`.
    Local(Vec<String>, Vec<Expr>),
    /// `const names = values`.
    Const(Vec<String>, Vec<Expr>),
    /// `function names[0].names[1]:method()`, and what its statements hold.
    Function(Vec<String>, Option<String>, Body, Vec<Event>),
    /// `targets = values`, and for each value that is a function what its
    /// statements hold.
    Assign(Vec<Option<Access>>, Vec<Expr>, Vec<Vec<Event>>),
    /// `type name = ..`, as it prints.
    Type(String, Rendered),
    /// `export type name = ..`, as it prints.
    ExportedType(String, Rendered),
    Other,
}

/// What the parser makes of a file: the statements that it could read, and
/// what it has to say of the rest.
pub struct Parsed {
    pub stmts: Vec<Statement>,
    pub errors: Vec<String>,
}

/// What a `Rendered` holds.
pub struct RenderedView {
    pub full: Text,
    pub lead: Text,
    pub trail: Text,
}

/// What an `Expr` holds.
pub struct ExprView {
    pub at: Option<Spot>,
    pub text: RenderedView,
    pub kind: KindView,
}

/// What an `ExprKind` is.
pub enum KindView {
    Name(Text),
    Literal(Text),
    Number,
    Symbol(Text),
    Function(BodyView),
    Cast(RenderedView),
    Call(ChainView),
    Fields(Seq<EntryView>),
    Other,
}

/// What an `Entry` is.
pub enum EntryView {
    Named(Text, ExprView),
    Plain(ExprView),
    Other,
}

/// What a `Chain` holds.
pub struct ChainView {
    pub head: Option<Text>,
    pub links: Seq<LinkView>,
}

/// What a `Link` is.
pub enum LinkView {
    Dot(Text),
    Method(Text, ArgsView),
    Call(ArgsView),
    Other,
}

/// What an `Args` is.
pub enum ArgsView {
    List(Seq<ExprView>),
    Other,
}

/// What an `Access` holds.
pub struct AccessView {
    pub head: Option<Text>,
    pub dots: Seq<Option<Text>>,
}

/// What a `Param` is.
pub enum ParamView {
    Name(Text),
    Other,
}

/// What a `Body` holds.
pub struct BodyView {
    pub at: Option<Spot>,
    pub params: Seq<ParamView>,
    pub types: Seq<Option<RenderedView>>,
    pub output: Option<RenderedView>,
}

/// What an `Event` is.
pub enum EventView {
    Assign(Seq<Option<AccessView>>, Seq<ExprView>),
    Access(AccessView),
    Call(AccessView),
}

/// What a `Statement` is.
pub enum StatementView {
    Local(Seq<Text>, Seq<ExprView>),
    Const(Seq<Text>, Seq<ExprView>),
    Function(Seq<Text>, Option<Text>, BodyView, Seq<EventView>),
    Assign(Seq<Option<AccessView>>, Seq<ExprView>, Seq<Seq<EventView>>),
    Type(Text, RenderedView),
    ExportedType(Text, RenderedView),
    Other,
}

/// What a `Parsed` holds.
pub struct ParsedView {
    pub stmts: Seq<StatementView>,
    pub errors: Seq<Text>,
}

impl DeepView for Rendered {
    type V = RenderedView;

    open spec fn deep_view(&self) -> RenderedView {
        RenderedView { full: self.full@, lead: self.lead@, trail: self.trail@ }
    }
}

impl DeepView for Param {
    type V = ParamView;

    open spec fn deep_view(&self) -> ParamView {
        match self {
            Param::Name(n) => ParamView::Name(n@),
            Param::Other => ParamView::Other,
        }
    }
}

impl DeepView for Body {
    type V = BodyView;

    open spec fn deep_view(&self) -> BodyView {
        BodyView {
            at: self.at,
            params: self.params.deep_view(),
            types: self.types.deep_view(),
            output: self.output.deep_view(),
        }
    }
}

impl DeepView for Access {
    type V = AccessView;

    open spec fn deep_view(&self) -> AccessView {
        AccessView { head: self.head.deep_view(), dots: self.dots.deep_view() }
    }
}

/// What an `Expr` holds.
pub open spec fn expr_view(e: Expr) -> ExprView
    decreases e,
{
    ExprView { at: e.at, text: e.text.deep_view(), kind: kind_view(e.kind) }
}

/// What an `ExprKind` is.
pub open spec fn kind_view(kind: ExprKind) -> KindView
    decreases kind,
{
    match kind {
        ExprKind::Name(n) => KindView::Name(n@),
        ExprKind::Literal(raw) => KindView::Literal(raw@),
        ExprKind::Number => KindView::Number,
        ExprKind::Symbol(s) => KindView::Symbol(s@),
        ExprKind::Function(body) => KindView::Function(body.deep_view()),
        ExprKind::Cast(ty) => KindView::Cast(ty.deep_view()),
        ExprKind::Call(chain) => KindView::Call(chain_view(chain)),
        ExprKind::Fields(entries) => KindView::Fields(
            Seq::new(
                entries@.len(),
                |i: int|
                    if 0 <= i < entries@.len() {
                        entry_view(entries@[i])
                    } else {
                        EntryView::Other
                    },
            ),
        ),
        ExprKind::Other => KindView::Other,
    }
}

/// What an `Entry` is.
pub open spec fn entry_view(entry: Entry) -> EntryView
    decreases entry,
{
    match entry {
        Entry::Named(key, value) => EntryView::Named(key@, expr_view(value)),
        Entry::Plain(value) => EntryView::Plain(expr_view(value)),
        Entry::Other => EntryView::Other,
    }
}

/// What a `Chain` holds.
pub open spec fn chain_view(chain: Chain) -> ChainView
    decreases chain,
{
    ChainView {
        head: chain.head.deep_view(),
        links: Seq::new(
            chain.links@.len(),
            |i: int|
                if 0 <= i < chain.links@.len() {
                    link_view(chain.links@[i])
                } else {
                    LinkView::Other
                },
        ),
    }
}

/// What a `Link` is.
pub open spec fn link_view(link: Link) -> LinkView
    decreases link,
{
    match link {
        Link::Dot(name) => LinkView::Dot(name@),
        Link::Method(name, args) => LinkView::Method(name@, args_view(args)),
        Link::Call(args) => LinkView::Call(args_view(args)),
        Link::Other => LinkView::Other,
    }
}

/// What an `Args` is.
pub open spec fn args_view(args: Args) -> ArgsView
    decreases args,
{
    match args {
        Args::List(list) => ArgsView::List(
            Seq::new(
                list@.len(),
                |i: int|
                    if 0 <= i < list@.len() {
                        expr_view(list@[i])
                    } else {
                        arbitrary()
                    },
            ),
        ),
        Args::Other => ArgsView::Other,
    }
}

impl DeepView for Expr {
    type V = ExprView;

    open spec fn deep_view(&self) -> ExprView {
        expr_view(*self)
    }
}

impl DeepView for Entry {
    type V = EntryView;

    open spec fn deep_view(&self) -> EntryView {
        entry_view(*self)
    }
}

impl DeepView for Chain {
    type V = ChainView;

    open spec fn deep_view(&self) -> ChainView {
        chain_view(*self)
    }
}

impl DeepView for Link {
    type V = LinkView;

    open spec fn deep_view(&self) -> LinkView {
        link_view(*self)
    }
}

impl DeepView for Args {
    type V = ArgsView;

    open spec fn deep_view(&self) -> ArgsView {
        args_view(*self)
    }
}

impl DeepView for Event {
    type V = EventView;

    open spec fn deep_view(&self) -> EventView {
        match self {
            Event::Assign(targets, values) => EventView::Assign(
                targets.deep_view(),
                values.deep_view(),
            ),
            Event::Access(access) => EventView::Access(access.deep_view()),
            Event::Call(access) => EventView::Call(access.deep_view()),
        }
    }
}

impl DeepView for Statement {
    type V = StatementView;

    open spec fn deep_view(&self) -> StatementView {
        match self {
            Statement::Local(names, values) => StatementView::Local(
                names.deep_view(),
                values.deep_view(),
            ),
            Statement::Const(names, values) => StatementView::Const(
                names.deep_view(),
                values.deep_view(),
            ),
            Statement::Function(names, method, body, events) => StatementView::Function(
                names.deep_view(),
                method.deep_view(),
                body.deep_view(),
                events.deep_view(),
            ),
            Statement::Assign(targets, values, events) => StatementView::Assign(
                targets.deep_view(),
                values.deep_view(),
                events.deep_view(),
            ),
            Statement::Type(name, node) => StatementView::Type(name@, node.deep_view()),
            Statement::ExportedType(name, node) => StatementView::ExportedType(
                name@,
                node.deep_view(),
            ),
            Statement::Other => StatementView::Other,
        }
    }
}

impl DeepView for Parsed {
    type V = ParsedView;

    open spec fn deep_view(&self) -> ParsedView {
        ParsedView { stmts: self.stmts.deep_view(), errors: self.errors.deep_view() }
    }
}

/// The fields of a table.
pub proof fn lemma_fields(entries: Vec<Entry>)
    ensures
        kind_view(ExprKind::Fields(entries)) == KindView::Fields(entries.deep_view()),
{
    assert(kind_view(ExprKind::Fields(entries))->Fields_0 =~= entries.deep_view());
}

/// The links of a chain.
pub proof fn lemma_links(chain: Chain)
    ensures
        chain_view(chain).links == chain.links.deep_view(),
{
    assert(chain_view(chain).links =~= chain.links.deep_view());
}

/// The arguments between parentheses.
pub proof fn lemma_list(list: Vec<Expr>)
    ensures
        args_view(Args::List(list)) == ArgsView::List(list.deep_view()),
{
    assert(args_view(Args::List(list))->List_0 =~= list.deep_view());
}

/// `full_moon::ast::Stmt`.
#[verifier::external_type_specification]
#[verifier::external_body]
pub struct ExStmt(ast::Stmt);

/// `full_moon::ast::Expression`.
#[verifier::external_type_specification]
#[verifier::external_body]
pub struct ExExpression(ast::Expression);

/// `full_moon::ast::TableConstructor`.
#[verifier::external_type_specification]
#[verifier::external_body]
pub struct ExTableConstructor(ast::TableConstructor);

/// `full_moon::ast::Prefix`.
#[verifier::external_type_specification]
#[verifier::external_body]
pub struct ExPrefix(ast::Prefix);

/// `full_moon::ast::Suffix`.
#[verifier::external_type_specification]
#[verifier::external_body]
pub struct ExSuffix(ast::Suffix);

/// `full_moon::ast::FunctionArgs`.
#[verifier::external_type_specification]
#[verifier::external_body]
pub struct ExFunctionArgs(ast::FunctionArgs);

/// `full_moon::ast::FunctionBody`.
#[verifier::external_type_specification]
#[verifier::external_body]
pub struct ExFunctionBody(ast::FunctionBody);

/// `full_moon::ast::Parameter`.
#[verifier::external_type_specification]
#[verifier::external_body]
pub struct ExParameter(ast::Parameter);

/// `full_moon::ast::FunctionCall`.
#[verifier::external_type_specification]
#[verifier::external_body]
pub struct ExFunctionCall(ast::FunctionCall);

/// `full_moon::ast::Var`.
#[verifier::external_type_specification]
#[verifier::external_body]
pub struct ExVar(ast::Var);

/// `full_moon::ast::VarExpression`.
#[verifier::external_type_specification]
#[verifier::external_body]
pub struct ExVarExpression(ast::VarExpression);

/// `full_moon::ast::Assignment`.
#[verifier::external_type_specification]
#[verifier::external_body]
pub struct ExAssignment(ast::Assignment);

/// `full_moon::ast::luau::TypeInfo`.
#[verifier::external_type_specification]
#[verifier::external_body]
pub struct ExTypeInfo(ast::luau::TypeInfo);

/// `full_moon::node::Tokens`.
#[verifier::external_type_specification]
#[verifier::external_body]
pub struct ExTokens<'a>(Tokens<'a>);

/// `full_moon::tokenizer::Position`.
#[verifier::external_type_specification]
#[verifier::external_body]
pub struct ExPosition(Position);

/// `full_moon::tokenizer::TokenReference`.
#[verifier::external_type_specification]
#[verifier::external_body]
pub struct ExTokenReference(TokenReference);

/// What `full_moon::tokenizer::Lexer` makes of a text, read as Luau, token by token.
pub uninterp spec fn luau_lexed(text: Text) -> Seq<LexedView>;

/// `full_moon::tokenizer::Lexer`, for Luau, driven to its end: for each token
/// whether it was read, and where it was not, what the lexer says of it and where.
/// The tokens depend on the text alone.
#[verifier::external_body]
pub(crate) fn lex_luau(text: &str) -> (r: Vec<Lexed>)
    ensures
        r.deep_view() == luau_lexed(text@),
{
    let mut lexer = Lexer::new(text, full_moon::LuaVersion::luau());
    let fault = |e: &TokenizerError| Fault {
        from: e.range().0.bytes(),
        to: e.range().1.bytes(),
        line: e.range().0.line(),
        message: full_moon::Error::TokenizerError(e.clone()).to_string(),
    };
    let lexed = |token| match token {
        LexerResult::Ok(_) => Lexed::Fine,
        LexerResult::Recovered(_, _) => Lexed::Fine,
        LexerResult::Fatal(errors) => Lexed::Fatal(errors.iter().map(fault).collect()),
    };
    std::iter::from_fn(|| lexer.consume()).map(lexed).collect()
}

/// There is a token, and none that could not be read.
pub open spec fn all_fine(tokens: Seq<LexedView>) -> bool {
    tokens.len() > 0 && forall|i: int| 0 <= i < tokens.len() ==> !(#[trigger] tokens[i] is Fatal)
}

/// The lexer reads a text to its end.
pub open spec fn luau_lexes(text: Text) -> bool {
    all_fine(luau_lexed(text))
}

/// What `full_moon::parse_fallible` makes of a text, read as Luau: its tree and
/// its errors as plain values.
pub uninterp spec fn luau_parsed(text: Text) -> ParsedView;

/// `full_moon::parse_fallible`, for Luau. It gives a tree for a text that the
/// lexer reads to its end, with errors or without. On others it can panic: it
/// expects a token where the lexer has none to give. The tree and the errors
/// depend on the text alone. Nothing is said of how deep a text may be nested:
/// the parser calls itself, and the stack is the machine's.
#[verifier::external_body]
pub(crate) fn parse_luau(text: &str) -> (r: Parsed)
    requires
        luau_lexes(text@),
    ensures
        r.deep_view() == luau_parsed(text@),
{
    let parsed = full_moon::parse_fallible(text, full_moon::LuaVersion::luau());
    Parsed {
        stmts: parsed.ast().nodes().stmts().map(stmt).collect(),
        errors: parsed.errors().iter().map(|e| e.to_string()).collect(),
    }
}

// What follows turns the parser's nodes into the values above, a variant into the
// variant that stands for it and a list into a list. Nothing is claimed of it:
// the one contract is that of `parse_luau`, which is made of it.

/// `TokenReference::token`: a token without the trivia around it.
#[verifier::external_body]
fn name_of(token: &TokenReference) -> String {
    token.token().to_string()
}

/// `Position::line` and `Position::character`.
#[verifier::external_body]
fn spot(at: Position) -> Spot {
    Spot { line: at.line(), column: at.character() }
}

/// `TokenReference::leading_trivia` of the first token of a node and
/// `TokenReference::trailing_trivia` of the last one, beside how it prints.
#[verifier::external_body]
fn rendered(full: String, mut tokens: Tokens<'_>) -> Rendered {
    let first = tokens.next();
    let last = tokens.next_back().or(first);
    Rendered {
        full,
        lead: first.map(|t| t.leading_trivia().map(|x| x.to_string()).collect()).unwrap_or_default(),
        trail: last.map(|t| t.trailing_trivia().map(|x| x.to_string()).collect()).unwrap_or_default(),
    }
}

/// `luau::TypeInfo` as it prints.
#[verifier::external_body]
fn type_text(node: &ast::luau::TypeInfo) -> Rendered {
    rendered(node.to_string(), node.tokens())
}

/// `ast::FunctionBody` as plain values.
#[verifier::external_body]
fn body(node: &ast::FunctionBody) -> Body {
    Body {
        at: node.start_position().map(spot),
        params: node.parameters().iter().map(param).collect(),
        types: node.type_specifiers().map(|t| t.map(|t| type_text(t.type_info()))).collect(),
        output: node.return_type().map(|t| type_text(t.type_info())),
    }
}

/// `ast::Parameter` as a plain value.
#[verifier::external_body]
fn param(node: &ast::Parameter) -> Param {
    match node {
        ast::Parameter::Name(t) => Param::Name(name_of(t)),
        _ => Param::Other,
    }
}

/// `ast::Expression` as plain values.
#[verifier::external_body]
fn expression(node: &ast::Expression) -> Expr {
    Expr {
        at: node.start_position().map(spot),
        text: rendered(node.to_string(), node.tokens()),
        kind: kind(node),
    }
}

/// The variant of an `ast::Expression` as plain values.
#[verifier::external_body]
fn kind(node: &ast::Expression) -> ExprKind {
    match node {
        ast::Expression::Var(ast::Var::Name(t)) => ExprKind::Name(name_of(t)),
        ast::Expression::String(t) => ExprKind::Literal(name_of(t)),
        ast::Expression::Number(_) => ExprKind::Number,
        ast::Expression::Symbol(t) => ExprKind::Symbol(name_of(t)),
        ast::Expression::Function(f) => ExprKind::Function(body(f.body())),
        ast::Expression::TypeAssertion { type_assertion: t, .. } => ExprKind::Cast(type_text(t.cast_to())),
        ast::Expression::FunctionCall(c) => ExprKind::Call(chain(c)),
        ast::Expression::TableConstructor(t) => ExprKind::Fields(entries(t)),
        _ => ExprKind::Other,
    }
}

/// `TableConstructor::fields` as plain values.
#[verifier::external_body]
fn entries(node: &ast::TableConstructor) -> Vec<Entry> {
    let entry = |field: &ast::Field| match field {
        ast::Field::NameKey { key, value, .. } => Entry::Named(name_of(key), expression(value)),
        ast::Field::NoKey(value) => Entry::Plain(expression(value)),
        _ => Entry::Other,
    };
    node.fields().iter().map(entry).collect()
}

/// `ast::Prefix` as a plain value.
#[verifier::external_body]
fn head(node: &ast::Prefix) -> Option<String> {
    match node {
        ast::Prefix::Name(t) => Some(name_of(t)),
        _ => None,
    }
}

/// `ast::FunctionCall` as plain values.
#[verifier::external_body]
fn chain(node: &ast::FunctionCall) -> Chain {
    Chain { head: head(node.prefix()), links: node.suffixes().map(link).collect() }
}

/// `ast::Suffix` as plain values.
#[verifier::external_body]
fn link(node: &ast::Suffix) -> Link {
    match node {
        ast::Suffix::Index(ast::Index::Dot { name, .. }) => Link::Dot(name_of(name)),
        ast::Suffix::Call(ast::Call::MethodCall(m)) => Link::Method(name_of(m.name()), args(m.args())),
        ast::Suffix::Call(ast::Call::AnonymousCall(a)) => Link::Call(args(a)),
        _ => Link::Other,
    }
}

/// `ast::FunctionArgs` as plain values.
#[verifier::external_body]
fn args(node: &ast::FunctionArgs) -> Args {
    match node {
        ast::FunctionArgs::Parentheses { arguments, .. } => Args::List(arguments.iter().map(expression).collect()),
        _ => Args::Other,
    }
}

/// `ast::Suffix` as the name behind a dot.
#[verifier::external_body]
fn dot(node: &ast::Suffix) -> Option<String> {
    match node {
        ast::Suffix::Index(ast::Index::Dot { name, .. }) => Some(name_of(name)),
        _ => None,
    }
}

/// `ast::VarExpression` as names.
#[verifier::external_body]
fn access(node: &ast::VarExpression) -> Access {
    Access { head: head(node.prefix()), dots: node.suffixes().map(dot).collect() }
}

/// `ast::Var` as names.
#[verifier::external_body]
fn target(node: &ast::Var) -> Option<Access> {
    match node {
        ast::Var::Expression(v) => Some(access(v)),
        _ => None,
    }
}

/// What a visitor has met, in the order in which it was led there.
struct Walk {
    events: Vec<Event>,
}

impl Visitor for Walk {
    /// `Visitor::visit_assignment`.
    #[verifier::external_body]
    fn visit_assignment(&mut self, node: &ast::Assignment) {
        let targets = node.variables().iter().map(target).collect();
        let values = node.expressions().iter().map(expression).collect();
        self.events.push(Event::Assign(targets, values));
    }

    /// `Visitor::visit_var_expression`.
    #[verifier::external_body]
    fn visit_var_expression(&mut self, node: &ast::VarExpression) {
        self.events.push(Event::Access(access(node)));
    }

    /// `Visitor::visit_function_call`.
    #[verifier::external_body]
    fn visit_function_call(&mut self, node: &ast::FunctionCall) {
        let dots = node.suffixes().map(dot).collect();
        self.events.push(Event::Call(Access { head: head(node.prefix()), dots }));
    }
}

/// `Visit::visit`, on the statements of a function.
#[verifier::external_body]
fn events(node: &ast::FunctionBody) -> Vec<Event> {
    let mut walk = Walk { events: Vec::new() };
    node.block().visit(&mut walk);
    walk.events
}

/// `Visit::visit`, on the statements of a value that is a function.
#[verifier::external_body]
fn events_in(node: &ast::Expression) -> Vec<Event> {
    match node {
        ast::Expression::Function(f) => events(f.body()),
        _ => Vec::new(),
    }
}

/// `ast::Stmt` as plain values. The name of a type stands behind the word
/// `type`: it is the second token, or the third one where the type is exported.
#[verifier::external_body]
fn stmt(node: &ast::Stmt) -> Statement {
    match node {
        ast::Stmt::LocalAssignment(l) => Statement::Local(
            l.names().iter().map(name_of).collect(), l.expressions().iter().map(expression).collect()),
        ast::Stmt::ConstAssignment(c) => Statement::Const(
            c.names().iter().map(name_of).collect(), c.expressions().iter().map(expression).collect()),
        ast::Stmt::FunctionDeclaration(f) => function(f),
        ast::Stmt::Assignment(a) => assignment(a),
        ast::Stmt::TypeDeclaration(_) => Statement::Type(token(node, 1), whole(node)),
        ast::Stmt::ExportedTypeDeclaration(_) => Statement::ExportedType(token(node, 2), whole(node)),
        _ => Statement::Other,
    }
}

/// `Node::tokens` of an `ast::Stmt`: the one in this place.
#[verifier::external_body]
fn token(node: &ast::Stmt, at: usize) -> String {
    node.tokens().nth(at).map(name_of).unwrap_or_default()
}

/// `ast::Stmt` as it prints.
#[verifier::external_body]
fn whole(node: &ast::Stmt) -> Rendered {
    rendered(node.to_string(), node.tokens())
}

/// `full_moon::ast::FunctionDeclaration`.
#[verifier::external_type_specification]
#[verifier::external_body]
pub struct ExFunctionDeclaration(ast::FunctionDeclaration);

/// `ast::FunctionDeclaration` as plain values.
#[verifier::external_body]
fn function(node: &ast::FunctionDeclaration) -> Statement {
    Statement::Function(
        node.name().names().iter().map(name_of).collect(),
        node.name().method_name().map(name_of),
        body(node.body()),
        events(node.body()),
    )
}

/// `ast::Assignment` as plain values.
#[verifier::external_body]
fn assignment(node: &ast::Assignment) -> Statement {
    Statement::Assign(
        node.variables().iter().map(target).collect(),
        node.expressions().iter().map(expression).collect(),
        node.expressions().iter().map(events_in).collect(),
    )
}

} // verus!
