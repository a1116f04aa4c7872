//! Laws of what is read from a module.

use vstd::prelude::*;

use crate::extract::{self, DeclarationView, FoundView, GatheredView};
use crate::laws::leaf;
use crate::module::{ImportView, IssueView, LocalTypeView, ModuleView, ServiceView};
use crate::syntax::{self, SyntaxView};
use crate::table::{self, Rows};
use crate::text::{self, Text};
use crate::tree::{
    AccessView, ArgsView, BodyView, ChainView, EntryView, EventView, ExprView, KindView, LinkView,
    ParamView, RenderedView, Spot, StatementView,
};

verus! {

/// The text of a node is what stands between the comments and the white space around
/// it.
pub proof fn law_span_is_the_core(
    node: RenderedView,
    w: Text,
    core: Text,
    v: Text,
)
    requires
        node.full == node.lead + w + core + v + node.trail,
        leaf::is_space(w),
        leaf::is_space(v),
        core.len() > 0,
        !text::is_white(core[0]),
        !text::is_white(core.last()),
    ensures
        syntax::spanned(node) == core,
{
    let full = node.full;
    let inner = w + core + v;
    assert(full.subrange(0, node.lead.len() as int) =~= node.lead);
    assert(full.subrange(full.len() - node.trail.len(), full.len() as int) =~= node.trail);
    assert(full.subrange(node.lead.len() as int, full.len() - node.trail.len()) =~= inner);
    let rest = core + v;
    assert(inner =~= w + rest);
    assert(rest[0] == core[0]);
    leaf::lemma_trim_start(w, rest);
    leaf::lemma_trim_end(core, v);
}

/// A parameter as it is written in a signature: its name, or `...`, and the type
/// that is annotated there, or `unknown`.
pub open spec fn written_param(body: BodyView, i: int) -> Text {
    (match body.params[i] {
        ParamView::Name(n) => n,
        ParamView::Other => "..."@,
    }) + ": "@ + (if i < body.types.len() {
        match body.types[i] {
            Some(t) => syntax::spanned(t),
            None => "unknown"@,
        }
    } else {
        "unknown"@
    })
}

/// The parameters `from..` as they are written.
pub open spec fn written_params(body: BodyView, from: int) -> Seq<Text> {
    Seq::new((body.params.len() - from) as nat, |i: int| written_param(body, from + i))
}

/// The type that a function is annotated to give.
pub open spec fn written_output(body: BodyView) -> Text {
    match body.output {
        Some(t) => syntax::spanned(t),
        None => "()"@,
    }
}

proof fn lemma_params(body: BodyView, from: int, to: int)
    requires
        0 <= from <= to <= body.params.len(),
    ensures
        extract::param_parts(body, from, to) == written_params(body, from).take(to - from),
    decreases to - from,
{
    reveal_strlit(": ");
    reveal_strlit(": unknown");
    reveal_strlit("unknown");
    if from < to {
        lemma_params(body, from, to - 1);
        let all = written_params(body, from);
        assert(": "@ + "unknown"@ =~= ": unknown"@);
        let name = extract::label(body.params[to - 1]);
        assert(name + ": "@ + "unknown"@ =~= name + ": unknown"@);
        assert(all[to - 1 - from] == written_param(body, to - 1));
        assert(all.take(to - from) =~= all.take(to - 1 - from).push(all[to - 1 - from]));
    } else {
        assert(written_params(body, from).take(0) =~= Seq::empty());
    }
}

/// The type of a value that is a function names each of its parameters, in order,
/// with the type annotated there, and then the type that it gives; there is no
/// receiver.
pub proof fn law_function_value_has_its_signature(value: ExprView, body: BodyView, known: Rows<Text>)
    requires
        value.kind == KindView::Function(body),
    ensures
        extract::type_of_value(value, known) == Some(
            "("@ + text::joined(written_params(body, 0), ", "@) + ") -> "@ + written_output(body),
        ),
{
    lemma_params(body, 0, body.params.len() as int);
    let all = written_params(body, 0);
    assert(all.take(all.len() as int) =~= all);
    assert(Seq::<Text>::empty() + all =~= all);
}

/// The type of a method names its receiver as the public type, then each of its
/// parameters in order with the type annotated there, and then the type that it
/// gives. A parameter `self` that is written out where there is no colon is the
/// receiver.
pub proof fn law_method_has_its_signature(body: BodyView, colon: bool)
    ensures
        ({
            let from: int = if !colon && body.params.len() > 0 && body.params[0] == ParamView::Name(
                "self"@,
            ) {
                1
            } else {
                0
            };
            extract::signature_of(body, colon, true) == "("@ + text::joined(
                seq!["self: Public"@] + written_params(body, from),
                ", "@,
            ) + ") -> "@ + written_output(body)
        }),
{
    reveal_strlit("...");
    reveal_strlit("self");
    assert("..."@.len() != "self"@.len());
    let from = extract::first_param(body, colon, true);
    lemma_params(body, from, body.params.len() as int);
    let all = written_params(body, from);
    assert(all.take(all.len() as int) =~= all);
}

/// A text in a list stands in what the list is joined to, with the same before it
/// and behind it whatever it is.
proof fn lemma_joined_around(parts: Seq<Text>, sep: Text, i: int, x: Text, y: Text)
    requires
        0 <= i < parts.len(),
        x != y,
    ensures
        text::joined(parts.update(i, x), sep) != text::joined(parts.update(i, y), sep),
    decreases parts.len(),
{
    let a = parts.update(i, x);
    let b = parts.update(i, y);
    if parts.len() > 1 {
        let some = parts.drop_last();
        if i < parts.len() - 1 {
            lemma_joined_around(some, sep, i, x, y);
            assert(a.drop_last() =~= some.update(i, x));
            assert(b.drop_last() =~= some.update(i, y));
            let p = text::joined(a.drop_last(), sep);
            let q = text::joined(b.drop_last(), sep);
            let tail = sep + parts.last();
            assert(text::joined(a, sep) =~= p + tail);
            assert(text::joined(b, sep) =~= q + tail);
            lemma_cancel_end(p, q, tail);
        } else {
            assert(a.drop_last() =~= some);
            assert(b.drop_last() =~= some);
            lemma_cancel_start(text::joined(some, sep) + sep, x, y);
        }
    }
}

proof fn lemma_cancel_end(p: Text, q: Text, tail: Text)
    requires
        p != q,
    ensures
        p + tail != q + tail,
{
    if p + tail == q + tail {
        assert((p + tail).len() == (q + tail).len());
        assert(p =~= (p + tail).take(p.len() as int));
        assert(q =~= (q + tail).take(q.len() as int));
    }
}

proof fn lemma_cancel_start(head: Text, x: Text, y: Text)
    requires
        x != y,
    ensures
        head + x != head + y,
{
    if head + x == head + y {
        assert(x =~= (head + x).skip(head.len() as int));
        assert(y =~= (head + y).skip(head.len() as int));
    }
}

/// Two functions that differ in the type annotated at one parameter have different
/// types.
#[verifier::spinoff_prover]
#[verifier::rlimit(40)]
pub proof fn law_annotations_show(
    a: BodyView,
    b: BodyView,
    i: int,
    x: RenderedView,
    y: RenderedView,
)
    requires
        0 <= i < a.params.len(),
        i < a.types.len(),
        a.types[i] == Some(x),
        b == (BodyView { types: a.types.update(i, Some(y)), ..a }),
        syntax::spanned(x) != syntax::spanned(y),
    ensures
        extract::signature_of(a, false, false) != extract::signature_of(b, false, false),
        extract::signature_of(a, true, true) != extract::signature_of(b, true, true),
{
    let p = written_params(a, 0);
    let q = written_params(b, 0);
    let s = p[i];
    let t = q[i];
    assert(s == written_param(a, i) && t == written_param(b, i));
    let label = match a.params[i] {
        ParamView::Name(n) => n,
        ParamView::Other => "..."@,
    };
    lemma_cancel_start(label + ": "@, syntax::spanned(x), syntax::spanned(y));
    assert(s != t);
    assert(q =~= p.update(i, t)) by {
        assert forall|k: int| 0 <= k < q.len() implies q[k] == p.update(i, t)[k] by {
            assert(q[k] == written_param(b, k));
            assert(p[k] == written_param(a, k));
        }
    }
    assert(p =~= p.update(i, s));
    lemma_joined_around(p, ", "@, i, s, t);
    let tail = ") -> "@ + written_output(a);
    let ja = text::joined(p, ", "@);
    let jb = text::joined(q, ", "@);
    lemma_cancel_end(ja, jb, tail);
    lemma_cancel_start("("@, ja + tail, jb + tail);
    assert("("@ + ja + ") -> "@ + written_output(a) =~= "("@ + (ja + tail));
    assert("("@ + jb + ") -> "@ + written_output(a) =~= "("@ + (jb + tail));
    let va = ExprView { at: None, text: x, kind: KindView::Function(a) };
    let vb = ExprView { at: None, text: x, kind: KindView::Function(b) };
    law_function_value_has_its_signature(va, a, Seq::empty());
    law_function_value_has_its_signature(vb, b, Seq::empty());
    law_method_has_its_signature(a, true);
    law_method_has_its_signature(b, true);
    let me = seq!["self: Public"@];
    let pa = me + p;
    let pb = me + q;
    assert(pa =~= pa.update(i + 1, s));
    assert(pb =~= pa.update(i + 1, t));
    lemma_joined_around(pa, ", "@, i + 1, s, t);
    let ka = text::joined(pa, ", "@);
    let kb = text::joined(pb, ", "@);
    lemma_cancel_end(ka, kb, tail);
    lemma_cancel_start("("@, ka + tail, kb + tail);
    assert("("@ + ka + ") -> "@ + written_output(a) =~= "("@ + (ka + tail));
    assert("("@ + kb + ") -> "@ + written_output(a) =~= "("@ + (kb + tail));
}

/// The type of a value, by what the value is: a cast has the type that it is cast to,
/// a literal the type it widens to, a name the type that the parameter of that name
/// has; and anything else that is no function has none.
pub proof fn law_value_has_its_type(value: ExprView, known: Rows<Text>)
    ensures
        value.kind matches KindView::Cast(ty) ==> extract::type_of_value(value, known) == Some(
            syntax::spanned(ty),
        ),
        value.kind is Literal ==> extract::type_of_value(value, known) == Some("string"@),
        value.kind is Number ==> extract::type_of_value(value, known) == Some("number"@),
        value.kind == KindView::Symbol("true"@) || value.kind == KindView::Symbol("false"@)
            ==> extract::type_of_value(value, known) == Some("boolean"@),
        value.kind is Symbol && value.kind != KindView::Symbol("true"@) && value.kind
            != KindView::Symbol("false"@) ==> extract::type_of_value(value, known) is None,
        value.kind matches KindView::Name(n) ==> extract::type_of_value(value, known)
            == table::get(known, n),
        value.kind is Call || value.kind is Fields || value.kind is Other
            ==> extract::type_of_value(value, known) is None,
{
}

/// A value without a type is said, at its place, with the word how to annotate it;
/// and a value with one is not, but for the parameters of a function.
pub proof fn law_value_without_a_type_is_said(value: ExprView, place: Text, known: Rows<Text>)
    requires
        !(value.kind is Function),
    ensures
        extract::type_of_value(value, known) is Some ==> extract::value_issues(
            value,
            place,
            known,
        ).len() == 0,
        extract::type_of_value(value, known) is None ==> extract::value_issues(value, place, known)
            == seq![
            IssueView {
                line: match value.at {
                    Some(at) => at.line,
                    None => 0,
                },
                column: match value.at {
                    Some(at) => at.column,
                    None => 0,
                },
                message: place
                    + " has no type. Annotate it with `::` so the generator can transcribe it."@,
            },
        ],
{
}

/// Each parameter without a type is said, in order, and no other.
pub proof fn law_untyped_parameters_are_said(body: BodyView, from: int, to: int)
    requires
        0 <= from <= to < body.params.len(),
    ensures
        extract::param_issues(body, from, from).len() == 0,
        extract::param_issues(body, from, to + 1) == extract::param_issues(body, from, to) + (
        if to < body.types.len() && body.types[to] is Some {
            Seq::empty()
        } else {
            seq![
                IssueView {
                    line: match body.at {
                        Some(at) => at.line,
                        None => 0,
                    },
                    column: match body.at {
                        Some(at) => at.column,
                        None => 0,
                    },
                    message: "parameter `"@ + (match body.params[to] {
                        ParamView::Name(n) => n,
                        ParamView::Other => "..."@,
                    }) + "` has no type annotation."@,
                },
            ]
        }),
{
    let some = extract::param_issues(body, from, to);
    assert(some + Seq::<IssueView>::empty() =~= some);
    assert(extract::param_issues(body, from, to + 1) =~= extract::param_issues(body, from, to) + (
    if to < body.types.len() && body.types[to] is Some {
        Seq::empty()
    } else {
        seq![
            extract::issue_at(
                body.at,
                "parameter `"@ + extract::label(body.params[to]) + "` has no type annotation."@,
            ),
        ]
    }));
}

/// What there is to say of a function is what there is to say of its parameters, all
/// but a receiver that is written out.
pub proof fn law_function_is_said(value: ExprView, body: BodyView, place: Text, known: Rows<Text>)
    requires
        value.kind == KindView::Function(body),
    ensures
        extract::value_issues(value, place, known) == extract::param_issues(
            body,
            0,
            body.params.len() as int,
        ),
        extract::signature_issues(body, true, true) == extract::param_issues(
            body,
            0,
            body.params.len() as int,
        ),
        extract::signature_issues(body, false, true) == extract::param_issues(
            body,
            if body.params.len() > 0 && body.params[0] == ParamView::Name("self"@) {
                1
            } else {
                0
            },
            body.params.len() as int,
        ),
{
    reveal_strlit("...");
    reveal_strlit("self");
    assert("..."@.len() != "self"@.len());
}

/// A string holds what stands between its quotes.
pub proof fn law_string_holds(e: ExprView, s: Text, quote: char)
    requires
        quote == '"' || quote == '\'',
        e.kind == KindView::Literal(seq![quote] + s + seq![quote]),
    ensures
        extract::string_of(e) == Some(s),
{
    let raw = seq![quote] + s + seq![quote];
    assert(raw.last() == quote);
    assert(raw.subrange(1, raw.len() - 1) =~= s);
}

/// A text that has no quotes around it is a string as it is, and nothing else holds
/// one.
pub proof fn law_other_strings(e: ExprView)
    ensures
        e.kind matches KindView::Literal(raw) ==> raw.len() > 0 && !(raw.len() > 1 && (raw[0] == '"'
            && raw.last() == '"' || raw[0] == '\'' && raw.last() == '\'')) ==> extract::string_of(e)
            == Some(raw),
        !(e.kind is Literal) ==> extract::string_of(e) is None,
        e.kind == KindView::Literal(Seq::empty()) ==> extract::string_of(e) is None,
{
}

/// A statement binds a call to names: `local x = ..` and `const x = ..` alike.
pub open spec fn binds(st: StatementView, names: Seq<Text>, chain: ChainView) -> bool {
    match st {
        StatementView::Local(n, values) => n == names && values.len() > 0 && values[0].kind
            == KindView::Call(chain),
        StatementView::Const(n, values) => n == names && values.len() > 0 && values[0].kind
            == KindView::Call(chain),
        _ => false,
    }
}

proof fn lemma_binds(st: StatementView)
    ensures
        forall|names: Seq<Text>, chain: ChainView| #[trigger]
            binds(st, names, chain) <==> extract::bound_call(st) == Some((names, chain)),
{
}

/// `x:GetService(..)` or `x.GetService(..)`.
pub open spec fn gets_service(chain: ChainView, args: Seq<ExprView>) -> bool {
    ||| chain.links == seq![LinkView::Method("GetService"@, ArgsView::List(args))]
    ||| chain.links == seq![LinkView::Dot("GetService"@), LinkView::Call(ArgsView::List(args))]
}

/// `require(..)`.
pub open spec fn is_require(chain: ChainView, args: Seq<ExprView>) -> bool {
    chain.head == Some("require"@) && chain.links == seq![LinkView::Call(ArgsView::List(args))]
}

/// The constructor of a kind, called: `x.Controller(..)` and the like.
pub open spec fn constructs(chain: ChainView, kind: Text, args: Seq<ExprView>) -> bool {
    &&& kind == "Controller"@ || kind == "Service"@ || kind == "Component"@
    &&& chain.links == seq![LinkView::Dot(kind), LinkView::Call(ArgsView::List(args))]
}

/// A statement that binds the call of a constructor to a name declares a module: the
/// kind is the constructor's, the id is the first argument, a string, and the name is
/// the first that is bound.
pub proof fn law_declaration(
    st: StatementView,
    names: Seq<Text>,
    chain: ChainView,
    kind: Text,
    args: Seq<ExprView>,
    id: Text,
)
    requires
        binds(st, names, chain),
        constructs(chain, kind, args),
        names.len() > 0,
        args.len() > 0,
        extract::string_of(args[0]) == Some(id),
    ensures
        extract::declares(st) == Some(
            Some(
                DeclarationView {
                    local: names[0],
                    id,
                    kind,
                    required: extract::required_in(args),
                },
            ),
        ),
{
    lemma_binds(st);
}

/// Nothing else declares a module.
pub proof fn law_no_other_declaration(st: StatementView)
    requires
        extract::declares(st) matches Some(Some(_)),
    ensures
        exists|names: Seq<Text>, chain: ChainView, kind: Text, args: Seq<ExprView>|
            #[trigger] binds(st, names, chain) && #[trigger] constructs(chain, kind, args)
                && names.len() > 0 && args.len() > 0 && extract::string_of(args[0]) is Some,
{
    lemma_binds(st);
    let (names, chain) = extract::bound_call(st)->0;
    let (kind, args) = extract::constructor(chain)->0;
    let list = extract::args_of(args);
    assert(chain.links =~= seq![LinkView::Dot(kind), LinkView::Call(ArgsView::List(list))]);
    assert(binds(st, names, chain) && constructs(chain, kind, list));
}

/// The first statement that declares a module decides, whatever comes after; what
/// comes before it and binds no constructor is passed over.
pub proof fn law_first_declaration_decides(
    before: Seq<StatementView>,
    st: StatementView,
    behind: Seq<StatementView>,
)
    requires
        forall|i: int| 0 <= i < before.len() ==> extract::declares(#[trigger] before[i]) is None,
        extract::declares(st) is Some,
    ensures
        extract::declared(before + seq![st] + behind) == extract::declares(st)->0,
        extract::declared(before) is None,
    decreases before.len(),
{
    let all = before + seq![st] + behind;
    if before.len() > 0 {
        let rest = before.drop_first();
        assert(extract::declares(before[0]) is None);
        assert forall|i: int| 0 <= i < rest.len() implies extract::declares(
            #[trigger] rest[i],
        ) is None by {
            assert(extract::declares(before[i + 1]) is None);
        }
        law_first_declaration_decides(rest, st, behind);
        assert(all.drop_first() =~= rest + seq![st] + behind);
    } else {
        assert(all[0] == st);
    }
}

/// The strings of a table come in order: those of two tables in a row are those of
/// the first and then those of the second, a string without a key is one, and
/// anything else is none.
pub proof fn law_strings_of_a_table(a: Seq<EntryView>, b: Seq<EntryView>, e: EntryView)
    ensures
        extract::plain_strings(a + b) == extract::plain_strings(a) + extract::plain_strings(b),
        extract::plain_strings(seq![e]) == (match e {
            EntryView::Plain(v) => match extract::string_of(v) {
                Some(s) => seq![s],
                None => Seq::empty(),
            },
            _ => Seq::empty(),
        }),
    decreases b.len(),
{
    assert(seq![e].drop_last() =~= Seq::<EntryView>::empty());
    assert(extract::plain_strings(seq![e].drop_last()) =~= Seq::empty());
    assert(extract::plain_strings(seq![e]) =~= (match e {
        EntryView::Plain(v) => match extract::string_of(v) {
            Some(s) => seq![s],
            None => Seq::empty(),
        },
        _ => Seq::empty(),
    }));
    if b.len() == 0 {
        assert(a + b =~= a);
    } else {
        law_strings_of_a_table(a, b.drop_last(), e);
        assert((a + b).drop_last() =~= a + b.drop_last());
    }
    assert(extract::plain_strings(a + b) =~= extract::plain_strings(a) + extract::plain_strings(b));
}

/// What a declaration requires: under `Require` in the table that is its second
/// argument stands a string, or a table with strings.
pub proof fn law_declared_require(
    args: Seq<ExprView>,
    before: Seq<EntryView>,
    value: ExprView,
    behind: Seq<EntryView>,
)
    requires
        args.len() > 1,
        args[1].kind == KindView::Fields(before + seq![EntryView::Named("Require"@, value)] + behind),
        forall|i: int|
            0 <= i < before.len() ==> !(#[trigger] before[i] matches EntryView::Named(k, _) && k
                == "Require"@),
    ensures
        extract::string_of(value) matches Some(s) ==> extract::required_in(args) == seq![s],
        value.kind matches KindView::Fields(list) ==> extract::required_in(args)
            == extract::plain_strings(list),
{
    lemma_required_by(before, value, behind);
}

proof fn lemma_required_by(before: Seq<EntryView>, value: ExprView, behind: Seq<EntryView>)
    requires
        forall|i: int|
            0 <= i < before.len() ==> !(#[trigger] before[i] matches EntryView::Named(k, _) && k
                == "Require"@),
    ensures
        ({
            let all = before + seq![EntryView::Named("Require"@, value)] + behind;
            &&& extract::string_of(value) matches Some(s) ==> extract::required_by(all) == seq![s]
            &&& value.kind matches KindView::Fields(list) ==> extract::required_by(all)
                == extract::plain_strings(list)
        }),
    decreases before.len(),
{
    let all = before + seq![EntryView::Named("Require"@, value)] + behind;
    if before.len() > 0 {
        let rest = before.drop_first();
        assert forall|i: int| 0 <= i < rest.len() implies !(#[trigger] rest[i] matches
            EntryView::Named(k, _) && k == "Require"@) by {
            assert(rest[i] == before[i + 1]);
        }
        lemma_required_by(rest, value, behind);
        assert(all.drop_first() =~= rest + seq![EntryView::Named("Require"@, value)] + behind);
        assert(all[0] == before[0]);
    } else {
        assert(all[0] == EntryView::Named("Require"@, value));
    }
}

/// Where there is no table, or no `Require` in it, nothing is required.
pub proof fn law_no_declared_require(args: Seq<ExprView>)
    requires
        args.len() > 1 ==> (args[1].kind matches KindView::Fields(list) ==> forall|i: int|
            0 <= i < list.len() ==> !(#[trigger] list[i] matches EntryView::Named(k, _) && k
                == "Require"@)),
    ensures
        extract::required_in(args).len() == 0,
{
    if args.len() > 1 {
        if let KindView::Fields(list) = args[1].kind {
            lemma_required_none(list);
        }
    }
}

proof fn lemma_required_none(list: Seq<EntryView>)
    requires
        forall|i: int|
            0 <= i < list.len() ==> !(#[trigger] list[i] matches EntryView::Named(k, _) && k
                == "Require"@),
    ensures
        extract::required_by(list).len() == 0,
    decreases list.len(),
{
    if list.len() > 0 {
        let rest = list.drop_first();
        assert forall|i: int| 0 <= i < rest.len() implies !(#[trigger] rest[i] matches
            EntryView::Named(k, _) && k == "Require"@) by {
            assert(rest[i] == list[i + 1]);
        }
        lemma_required_none(rest);
        assert(!(list[0] matches EntryView::Named(k, _) && k == "Require"@));
    }
}

/// The methods of a module: `function x:name()`, `function x.name()` and
/// `x.name = function() end`, where `x` is the name that the module is bound to. Only
/// the first has a colon.
pub proof fn law_methods(
    target: Text,
    name: Text,
    body: BodyView,
    events: Seq<EventView>,
    value: ExprView,
)
    requires
        value.kind == KindView::Function(body),
    ensures
        extract::method_of(
            StatementView::Function(seq![target], Some(name), body, events),
            target,
        ) == Some(FoundView { name, body, colon: true, events }),
        extract::method_of(
            StatementView::Function(seq![target, name], None, body, events),
            target,
        ) == Some(FoundView { name, body, colon: false, events }),
        extract::method_of(
            StatementView::Assign(
                seq![Some(AccessView { head: Some(target), dots: seq![Some(name)] })],
                seq![value],
                seq![events],
            ),
            target,
        ) == Some(FoundView { name, body, colon: false, events }),
{
}

/// Where several targets are assigned at once, the first of them, with the first
/// value, can be a method. What the method does is what the first value does.
pub proof fn law_method_among_targets(
    target: Text,
    name: Text,
    body: BodyView,
    value: ExprView,
    targets: Seq<Option<AccessView>>,
    values: Seq<ExprView>,
    events: Seq<EventView>,
    more: Seq<Seq<EventView>>,
)
    requires
        value.kind == KindView::Function(body),
    ensures
        extract::method_of(
            StatementView::Assign(
                seq![Some(AccessView { head: Some(target), dots: seq![Some(name)] })] + targets,
                seq![value] + values,
                seq![events] + more,
            ),
            target,
        ) == Some(FoundView { name, body, colon: false, events }),
        extract::method_of(
            StatementView::Assign(
                seq![Some(AccessView { head: Some(target), dots: seq![Some(name)] })] + targets,
                seq![value] + values,
                Seq::empty(),
            ),
            target,
        ) == Some(FoundView { name, body, colon: false, events: Seq::empty() }),
{
    let access = AccessView { head: Some(target), dots: seq![Some(name)] };
    assert((seq![Some(access)] + targets)[0] == Some(access));
    assert((seq![value] + values)[0] == value);
    assert((seq![events] + more)[0] == events);
}

/// No other statement gives a module a method: what it gives one to is the module's
/// own name, one level deep.
pub proof fn law_no_other_method(st: StatementView, target: Text)
    requires
        extract::method_of(st, target) is Some,
    ensures
        ({
            let m = extract::method_of(st, target)->0;
            match st {
                StatementView::Function(names, method, body, events) => {
                    &&& body == m.body && events == m.events
                    &&& m.colon ==> names == seq![target] && method == Some(m.name)
                    &&& !m.colon ==> names == seq![target, m.name] && method is None
                },
                StatementView::Assign(targets, values, events) => {
                    &&& targets.len() > 0 && targets[0] == Some(
                        AccessView { head: Some(target), dots: seq![Some(m.name)] },
                    )
                    &&& values.len() > 0 && values[0].kind == KindView::Function(m.body)
                    &&& !m.colon
                },
                _ => false,
            }
        }),
{
    match st {
        StatementView::Function(names, method, body, events) => {
            if method is Some {
                assert(names =~= seq![target]);
            } else {
                assert(names =~= seq![target, names[1]]);
            }
        },
        StatementView::Assign(targets, values, events) => {
            let access = targets[0]->0;
            assert(access.dots =~= seq![access.dots[0]]);
        },
        _ => {},
    }
}

/// `local x = game:GetService("S")`, with a dot as well, binds `x` to the service `S`;
/// `local x = require(e)` binds `x` to what stands between the parentheses.
pub proof fn law_services_and_requires(
    st: StatementView,
    names: Seq<Text>,
    chain: ChainView,
    args: Seq<ExprView>,
)
    requires
        binds(st, names, chain),
        names.len() > 0,
        args.len() > 0,
    ensures
        gets_service(chain, args) && extract::string_of(args[0]) is Some ==> extract::service_of(st) == Some(
            ServiceView { alias: names[0], service: extract::string_of(args[0])->0 },
        ),
        is_require(chain, args) ==> extract::import_of(st) == Some(
            ImportView { alias: names[0], expr: syntax::spanned(args[0].text) },
        ),
{
    lemma_binds(st);
}

/// Nothing else binds a service, and nothing else requires.
pub proof fn law_no_other_service_or_require(st: StatementView)
    ensures
        extract::service_of(st) is Some ==> exists|
            names: Seq<Text>,
            chain: ChainView,
            args: Seq<ExprView>,
        |
            #[trigger] binds(st, names, chain) && args.len() > 0 && names.len() > 0
                && #[trigger] gets_service(chain, args),
        extract::import_of(st) is Some ==> exists|
            names: Seq<Text>,
            chain: ChainView,
            args: Seq<ExprView>,
        |
            #[trigger] binds(st, names, chain) && args.len() > 0 && names.len() > 0
                && #[trigger] is_require(chain, args),
{
    lemma_binds(st);
    if extract::service_of(st) is Some {
        let (names, chain) = extract::bound_call(st)->0;
        let args = extract::service_args(chain)->0;
        let list = extract::args_of(args);
        assert(args == ArgsView::List(list));
        if chain.links.len() == 1 {
            assert(chain.links =~= seq![LinkView::Method("GetService"@, ArgsView::List(list))]);
        } else {
            assert(chain.links =~= seq![
                LinkView::Dot("GetService"@),
                LinkView::Call(ArgsView::List(list)),
            ]);
        }
        assert(binds(st, names, chain) && gets_service(chain, list));
    }
    if extract::import_of(st) is Some {
        let (names, chain) = extract::bound_call(st)->0;
        let args = match chain.links[0] {
            LinkView::Call(args) => args,
            _ => ArgsView::Other,
        };
        let list = extract::args_of(args);
        assert(args == ArgsView::List(list));
        assert(chain.links =~= seq![LinkView::Call(ArgsView::List(list))]);
        assert(binds(st, names, chain) && is_require(chain, list));
    }
}

/// A file's services, requires and local types come in the order of its statements:
/// those of two files in a row are those of the first and then those of the second.
pub proof fn law_statements_in_order(a: Seq<StatementView>, b: Seq<StatementView>)
    ensures
        extract::services_of(a + b) == extract::services_of(a) + extract::services_of(b),
        extract::imports_of(a + b) == extract::imports_of(a) + extract::imports_of(b),
        extract::local_types_of(a + b) == extract::local_types_of(a) + extract::local_types_of(b),
    decreases b.len(),
{
    if b.len() == 0 {
        assert(a + b =~= a);
    } else {
        law_statements_in_order(a, b.drop_last());
        assert((a + b).drop_last() =~= a + b.drop_last());
        assert((a + b).last() == b.last());
    }
    assert(extract::services_of(a + b) =~= extract::services_of(a) + extract::services_of(b));
    assert(extract::imports_of(a + b) =~= extract::imports_of(a) + extract::imports_of(b));
    assert(extract::local_types_of(a + b) =~= extract::local_types_of(a)
        + extract::local_types_of(b));
}

/// What one statement adds: a service where it binds one, a require where it
/// requires, and a type, exported or not, under its name with its text.
pub proof fn law_one_statement(st: StatementView)
    ensures
        extract::services_of(seq![st]) == (match extract::service_of(st) {
            Some(s) => seq![s],
            None => Seq::empty(),
        }),
        extract::imports_of(seq![st]) == (match extract::import_of(st) {
            Some(s) => seq![s],
            None => Seq::empty(),
        }),
        extract::local_types_of(seq![st]) == (match st {
            StatementView::Type(name, node) => seq![
                LocalTypeView { name, text: syntax::spanned(node) },
            ],
            StatementView::ExportedType(name, node) => seq![
                LocalTypeView { name, text: syntax::spanned(node) },
            ],
            _ => Seq::empty(),
        }),
{
    let none = seq![st].drop_last();
    assert(none =~= Seq::empty());
    assert(extract::services_of(none) =~= Seq::empty());
    assert(extract::imports_of(none) =~= Seq::empty());
    assert(extract::local_types_of(none) =~= Seq::empty());
    assert(extract::services_of(seq![st]) =~= (match extract::service_of(st) {
        Some(s) => seq![s],
        None => Seq::empty(),
    }));
    assert(extract::imports_of(seq![st]) =~= (match extract::import_of(st) {
        Some(s) => seq![s],
        None => Seq::empty(),
    }));
    assert(extract::local_types_of(seq![st]) =~= (match extract::type_of(st) {
        Some(s) => seq![s],
        None => Seq::empty(),
    }));
}

/// Where the first argument of a constructor is no string, the statement decides that
/// the file declares no module.
pub proof fn law_declaration_without_an_id(
    st: StatementView,
    names: Seq<Text>,
    chain: ChainView,
    kind: Text,
    args: Seq<ExprView>,
)
    requires
        binds(st, names, chain),
        constructs(chain, kind, args),
        names.len() == 0 || args.len() == 0 || extract::string_of(args[0]) is None,
    ensures
        extract::declares(st) == Some(None::<DeclarationView>),
{
    lemma_binds(st);
}

/// `self.name`.
pub open spec fn self_dot(name: Text) -> AccessView {
    AccessView { head: Some("self"@), dots: seq![Some(name)] }
}

/// `self.name = value` as something that a method does.
pub open spec fn assigns(name: Text, value: ExprView) -> EventView {
    EventView::Assign(seq![Some(self_dot(name))], seq![value])
}

/// What a method does is read in order: first one part and then the other is as both.
pub proof fn law_events_in_order(
    g: GatheredView,
    a: Seq<EventView>,
    b: Seq<EventView>,
    known: Rows<Text>,
)
    ensures
        extract::with_events(g, a + b, known) == extract::with_events(
            extract::with_events(g, a, known),
            b,
            known,
        ),
        extract::with_events(g, Seq::empty(), known) == g,
    decreases b.len(),
{
    if b.len() == 0 {
        assert(a + b =~= a);
    } else {
        law_events_in_order(g, a, b.drop_last(), known);
        assert((a + b).drop_last() =~= a + b.drop_last());
    }
}

/// `self.name = value` gives the field the type of the value, if it has one and the
/// field has none yet; no other field changes, nor does anything else that was read
/// but for what there is to say of the value.
pub proof fn law_assignment_gives_a_field_its_type(
    g: GatheredView,
    name: Text,
    value: ExprView,
    known: Rows<Text>,
    other: Text,
)
    requires
        table::sorted(g.fields),
    ensures
        ({
            let h = extract::with_events(g, seq![assigns(name, value)], known);
            &&& h.methods == g.methods && h.deps == g.deps
            &&& other != name ==> table::get(h.fields, other) == table::get(g.fields, other)
            &&& table::get(g.fields, name) is Some ==> h == g
            &&& table::get(g.fields, name) is None ==> table::get(h.fields, name)
                == extract::type_of_value(value, known) && h.issues == g.issues
                + extract::value_issues(value, "self."@ + name, known)
        }),
{
    let events = seq![assigns(name, value)];
    assert(events.drop_last() =~= Seq::<EventView>::empty());
    let targets = seq![Some(self_dot(name))];
    let values = seq![value];
    assert(extract::with_events(g, events.drop_last(), known) == g);
    reveal_with_fuel(extract::with_targets, 2);
    assert(extract::with_targets(g, targets, values, 1, known) == extract::with_field(
        g,
        name,
        value,
        known,
    ));
    if let Some(ty) = extract::type_of_value(value, known) {
        table::law_get_put(g.fields, name, ty, other);
        table::law_get_put(g.fields, name, ty, name);
    }
}

/// Assignments to several targets at once are as many assignments, each target with
/// the value in the same place, as far as there are both.
pub proof fn law_targets_one_by_one(
    g: GatheredView,
    targets: Seq<Option<AccessView>>,
    values: Seq<ExprView>,
    known: Rows<Text>,
    n: int,
)
    requires
        0 <= n <= targets.len(),
        n <= values.len(),
        n == targets.len() || n == values.len(),
    ensures
        extract::with_events(g, seq![EventView::Assign(targets, values)], known)
            == extract::with_events(
            g,
            Seq::new(n as nat, |i: int| EventView::Assign(seq![targets[i]], seq![values[i]])),
            known,
        ),
{
    let events = seq![EventView::Assign(targets, values)];
    assert(events.drop_last() =~= Seq::<EventView>::empty());
    assert(extract::with_events(g, events.drop_last(), known) == g);
    lemma_targets(g, targets, values, known, n);
}

proof fn lemma_targets(
    g: GatheredView,
    targets: Seq<Option<AccessView>>,
    values: Seq<ExprView>,
    known: Rows<Text>,
    n: int,
)
    requires
        0 <= n <= targets.len(),
        n <= values.len(),
    ensures
        extract::with_targets(g, targets, values, n, known) == extract::with_events(
            g,
            Seq::new(n as nat, |i: int| EventView::Assign(seq![targets[i]], seq![values[i]])),
            known,
        ),
    decreases n,
{
    let all = Seq::new(n as nat, |i: int| EventView::Assign(seq![targets[i]], seq![values[i]]));
    if n > 0 {
        lemma_targets(g, targets, values, known, n - 1);
        assert(all.drop_last() =~= Seq::new(
            (n - 1) as nat,
            |i: int| EventView::Assign(seq![targets[i]], seq![values[i]]),
        ));
        let some = extract::with_targets(g, targets, values, n - 1, known);
        let t = seq![targets[n - 1]];
        let v = seq![values[n - 1]];
        assert(all.last() == EventView::Assign(t, v));
        reveal_with_fuel(extract::with_targets, 2);
        assert(extract::pairs(t, v) == 1);
    }
}

/// An assignment to anything but `self.name`, one level deep, gives no field a type.
pub proof fn law_only_self_has_fields(
    g: GatheredView,
    target: Option<AccessView>,
    value: ExprView,
    known: Rows<Text>,
)
    requires
        forall|name: Text| target != Some(#[trigger] self_dot(name)),
        target matches Some(a) ==> forall|i: int| 0 <= i < a.dots.len() ==> #[trigger] a.dots[i] is Some,
    ensures
        extract::with_events(g, seq![EventView::Assign(seq![target], seq![value])], known) == g,
{
    let events = seq![EventView::Assign(seq![target], seq![value])];
    assert(events.drop_last() =~= Seq::<EventView>::empty());
    assert(extract::with_events(g, events.drop_last(), known) == g);
    reveal_with_fuel(extract::with_targets, 2);
    if let Some(a) = target {
        if a.head == Some("self"@) && a.dots.len() == 1 {
            assert(a.dots[0] is Some);
            let name = a.dots[0]->0;
            assert(a.dots =~= seq![Some(name)]);
            assert(target == Some(self_dot(name)));
        }
    }
}

/// `self.Dependencies.name`, however it goes on, is a dependency on `name`, whether it
/// is read or called; nothing else is.
pub proof fn law_dependencies(g: GatheredView, access: AccessView, known: Rows<Text>, d: Text)
    requires
        table::in_order(g.deps),
    ensures
        ({
            let deep = access.head == Some("self"@) && access.dots.len() >= 2 && access.dots[0]
                == Some("Dependencies"@) && access.dots[1] == Some(d);
            &&& extract::with_events(g, seq![EventView::Access(access)], known).deps.contains(d)
                <==> g.deps.contains(d) || deep
            &&& extract::with_events(g, seq![EventView::Call(access)], known).deps.contains(d)
                <==> g.deps.contains(d) || deep
            &&& extract::with_events(g, seq![EventView::Access(access)], known).fields == g.fields
        }),
{
    let a = seq![EventView::Access(access)];
    let b = seq![EventView::Call(access)];
    assert(a.drop_last() =~= Seq::<EventView>::empty());
    assert(b.drop_last() =~= Seq::<EventView>::empty());
    assert(extract::with_events(g, a.drop_last(), known) == g);
    assert(extract::with_events(g, b.drop_last(), known) == g);
    if let Some(x) = extract::dependency(access) {
        table::law_with_text(g.deps, x);
    }
}

/// The statements of a file are read in order: first one part and then the other is as
/// both.
pub proof fn law_methods_in_order(
    g: GatheredView,
    a: Seq<StatementView>,
    b: Seq<StatementView>,
    target: Text,
)
    ensures
        extract::with_statements(g, a + b, target) == extract::with_statements(
            extract::with_statements(g, a, target),
            b,
            target,
        ),
        extract::with_statements(g, Seq::empty(), target) == g,
    decreases b.len(),
{
    if b.len() == 0 {
        assert(a + b =~= a);
    } else {
        law_methods_in_order(g, a, b.drop_last(), target);
        assert((a + b).drop_last() =~= a + b.drop_last());
    }
}

/// A statement that is no method of the module shows nothing of it. One that is adds
/// the method behind the others, under its name and with its receiver, and what there
/// is to say of its parameters; then what it does is read, with its parameters' types.
pub proof fn law_one_method(g: GatheredView, st: StatementView, target: Text)
    ensures
        extract::method_of(st, target) is None ==> extract::with_statements(g, seq![st], target)
            == g,
        extract::method_of(st, target) matches Some(m) ==> extract::with_statements(
            g,
            seq![st],
            target,
        ) == extract::with_events(
            GatheredView {
                methods: g.methods + seq![(m.name, extract::signature_of(m.body, m.colon, true))],
                fields: g.fields,
                deps: g.deps,
                issues: g.issues + extract::signature_issues(m.body, m.colon, true),
            },
            m.events,
            extract::typed(m.body.params, m.body.types),
        ),
{
    let one = seq![st];
    assert(one.drop_last() =~= Seq::<StatementView>::empty());
    assert(extract::with_statements(g, one.drop_last(), target) == g);
    if let Some(m) = extract::method_of(st, target) {
        let x = (m.name, extract::signature_of(m.body, m.colon, true));
        assert(g.methods.push(x) =~= g.methods + seq![x]);
    }
}

/// What is known of the parameters of a method: each that is named and has a type has
/// that type, and no other name has one.
pub proof fn law_known_parameters(
    params: Seq<ParamView>,
    types: Seq<Option<RenderedView>>,
    name: Text,
)
    requires
        forall|i: int, j: int|
            #![trigger params[i], params[j]]
            0 <= i < j < params.len() ==> params[i] != params[j] || params[i] is Other,
    ensures
        table::sorted(extract::typed(params, types)),
        forall|i: int|
            0 <= i < params.len() && #[trigger] params[i] == ParamView::Name(name) ==> table::get(
                extract::typed(params, types),
                name,
            ) == (if i < types.len() {
                match types[i] {
                    Some(t) => Some(syntax::spanned(t)),
                    None => None,
                }
            } else {
                None
            }),
        (forall|i: int|
            0 <= i < params.len() ==> #[trigger] params[i] != ParamView::Name(name)) ==> table::get(
            extract::typed(params, types),
            name,
        ) is None,
    decreases params.len(),
{
    if params.len() > 0 {
        let some = params.drop_last();
        let n = params.len() - 1;
        assert forall|i: int, j: int|
            #![trigger some[i], some[j]]
            0 <= i < j < some.len() implies some[i] != some[j] || some[i] is Other by {
            assert(params[i] != params[j] || params[i] is Other);
        }
        law_known_parameters(some, types, name);
        let rows = extract::typed(some, types);
        if let ParamView::Name(last) = params[n] {
            if let Some(ty) = extract::annotation(types, n) {
                table::law_put_sorted(rows, last, ty);
                table::law_get_put(rows, last, ty, name);
            }
        }
        if params[n] == ParamView::Name(name) {
            assert forall|i: int| 0 <= i < some.len() implies #[trigger] some[i]
                != ParamView::Name(name) by {
                assert(params[i] != params[n] || params[i] is Other);
            }
        }
        assert forall|i: int|
            0 <= i < params.len() && #[trigger] params[i] == ParamView::Name(name) implies table::get(
            extract::typed(params, types),
            name,
        ) == (if i < types.len() {
            match types[i] {
                Some(t) => Some(syntax::spanned(t)),
                None => None,
            }
        } else {
            None
        }) by {
            if i < n {
                assert(some[i] == params[i]);
                assert(params[i] != params[n] || params[i] is Other);
            }
        }
        if forall|i: int| 0 <= i < params.len() ==> #[trigger] params[i] != ParamView::Name(name) {
            assert forall|i: int| 0 <= i < some.len() implies #[trigger] some[i]
                != ParamView::Name(name) by {
                assert(params[i] != ParamView::Name(name));
            }
            assert(params[n] != ParamView::Name(name));
        }
    }
}

/// A module is what its file says: the id, the kind and the requires are those of the
/// declaration, the file is written with forward slashes, services, requires and types
/// are those of the statements, and the methods of the name that the module is bound to
/// show the rest, with nothing read before but that the file does not parse.
pub proof fn law_module_is_what_its_file_says(
    path: Text,
    stmts: Seq<StatementView>,
    broken: Option<SyntaxView>,
)
    ensures
        match extract::declared(stmts) {
            None => extract::extraction(path, stmts, broken) is None,
            Some(d) => {
                let g = extract::with_statements(
                    GatheredView {
                        methods: Seq::empty(),
                        fields: Seq::empty(),
                        deps: Seq::empty(),
                        issues: match broken {
                            None => Seq::empty(),
                            Some(b) => seq![
                                IssueView {
                                    line: match b.line {
                                        Some(n) => n,
                                        None => 0,
                                    },
                                    column: 0,
                                    message:
                                        "file does not parse yet; typed from what was readable"@,
                                },
                            ],
                        },
                    },
                    stmts,
                    d.local,
                );
                extract::extraction(path, stmts, broken) == Some(
                    ModuleView {
                        id: d.id,
                        kind: d.kind,
                        file: Seq::new(
                            path.len(),
                            |i: int|
                                if path[i] == '\\' {
                                    '/'
                                } else {
                                    path[i]
                                },
                        ),
                        services: extract::services_of(stmts),
                        requires: extract::imports_of(stmts),
                        local_types: extract::local_types_of(stmts),
                        methods: g.methods,
                        fields: g.fields,
                        dependencies: g.deps,
                        declared_require: d.required,
                        issues: g.issues,
                    },
                )
            },
        },
{
    assert(text::replaced(path, '\\', '/') =~= Seq::new(
        path.len(),
        |i: int|
            if path[i] == '\\' {
                '/'
            } else {
                path[i]
            },
    ));
}

/// A file that declares no module is refused by name.
pub proof fn law_no_module_in_words(file: Text)
    ensures
        extract::no_call(file) == file + ": no call to Controller, Service or Component found"@,
{
}

} // verus!
