//! Laws of the type leaf.

use vstd::prelude::*;

use crate::emit;
use crate::module::{ImportView, LocalTypeView, ModuleView, ServiceView};
use crate::syntax;
use crate::table;
use crate::text::{self, Text};

verus! {

/// A path in the game, from its names.
pub open spec fn dotted(names: Seq<Text>) -> Text {
    text::joined(names, "."@)
}

/// Names as a path in the game can have them.
pub open spec fn plain_names(names: Seq<Text>) -> bool {
    forall|i: int| 0 <= i < names.len() ==> (#[trigger] names[i]).len() > 0 && !names[i].contains(
        '.',
    )
}

/// `script`, then `n` times `Parent`, then some names, with dots between.
pub open spec fn from_script(n: nat, names: Seq<Text>) -> Text {
    dotted(seq!["script"@] + Seq::new(n, |i: int| "Parent"@) + names)
}

/// Texts that are all kept by a filter are what it gives.
proof fn lemma_all_kept(names: Seq<Text>)
    requires
        forall|i: int| 0 <= i < names.len() ==> (#[trigger] names[i]).len() > 0,
    ensures
        names.filter(|p: Text| p.len() > 0) == names,
    decreases names.len(),
{
    reveal(Seq::filter);
    if names.len() > 0 {
        let some = names.drop_last();
        assert forall|i: int| 0 <= i < some.len() implies (#[trigger] some[i]).len() > 0 by {
            assert(names[i].len() > 0);
        }
        lemma_all_kept(some);
        assert(names[names.len() - 1].len() > 0);
        assert(names =~= some.push(names.last()));
    } else {
        assert(names.filter(|p: Text| p.len() > 0) =~= names);
    }
}

proof fn lemma_segments(names: Seq<Text>)
    requires
        plain_names(names),
    ensures
        text::split(dotted(names), '.').filter(|p: Text| p.len() > 0) == names,
{
    reveal_strlit(".");
    assert("."@ =~= seq!['.']);
    if names.len() > 0 {
        text::law_join_split(names, '.');
        lemma_all_kept(names);
    } else {
        let none = Seq::<char>::empty();
        assert(dotted(names) =~= none);
        assert(text::split(none, '.') =~= seq![none]);
        let keep = |p: Text| p.len() > 0;
        seq![none].lemma_all_neg_filter_empty(keep);
        assert(names =~= Seq::empty());
    }
}

/// Names without the last `n`, as far as there are so many.
pub open spec fn above(names: Seq<Text>, n: nat) -> Seq<Text> {
    if n <= names.len() {
        names.take(names.len() - n)
    } else {
        Seq::empty()
    }
}

proof fn lemma_walk_up(segs: Seq<Text>, n: nat)
    ensures
        emit::walked(segs, Seq::new(n, |i: int| "Parent"@)) == above(segs, n),
    decreases n,
{
    let steps = Seq::new(n, |i: int| "Parent"@);
    if n > 0 {
        let fewer = (n - 1) as nat;
        lemma_walk_up(segs, fewer);
        assert(steps.drop_last() =~= Seq::new(fewer, |i: int| "Parent"@));
        if n <= segs.len() {
            assert(segs.take(segs.len() - fewer).drop_last() =~= segs.take(segs.len() - n));
        }
        assert(emit::walked(segs, steps) =~= above(segs, n));
    } else {
        assert(segs.take(segs.len() as int) =~= segs);
    }
}

proof fn lemma_walk_down(segs: Seq<Text>, steps: Seq<Text>, names: Seq<Text>)
    requires
        forall|i: int| 0 <= i < names.len() ==> #[trigger] names[i] != "Parent"@,
    ensures
        emit::walked(segs, steps + names) == emit::walked(segs, steps) + names,
    decreases names.len(),
{
    if names.len() > 0 {
        let some = names.drop_last();
        assert forall|i: int| 0 <= i < some.len() implies #[trigger] some[i] != "Parent"@ by {
            assert(names[i] != "Parent"@);
        }
        lemma_walk_down(segs, steps, some);
        assert((steps + names).drop_last() =~= steps + some);
        assert((steps + names).last() == names.last());
        assert(names[names.len() - 1] != "Parent"@);
        assert(emit::walked(segs, steps + names) =~= emit::walked(segs, steps) + names);
    } else {
        assert(steps + names =~= steps);
        assert(emit::walked(segs, steps) + names =~= emit::walked(segs, steps));
    }
}

/// An expression that starts at `script` does so in its text.
proof fn lemma_starts_at_script(rest: Seq<Text>)
    ensures
        ({
            let e = dotted(seq!["script"@] + rest);
            e == "script"@ || "script."@.is_prefix_of(e)
        }),
    decreases rest.len(),
{
    reveal_strlit("script");
    reveal_strlit("script.");
    reveal_strlit(".");
    let all = seq!["script"@] + rest;
    if rest.len() == 0 {
        assert(all =~= seq!["script"@]);
    } else {
        lemma_starts_at_script(rest.drop_last());
        assert(all.drop_last() =~= seq!["script"@] + rest.drop_last());
        let lead = dotted(all.drop_last());
        let e = dotted(all);
        if lead == "script"@ {
            assert(e.subrange(0, 7) =~= "script."@);
        } else {
            assert(lead.subrange(0, 7) == "script."@);
            assert(e.subrange(0, 7) =~= lead.subrange(0, 7));
        }
    }
}

/// What a require of a module leads to: `script` is the module itself, each
/// `Parent` goes up by one name and by no more, and every other name goes down to
/// it. So `n` times `Parent` leaves the module's path without its last `n` names,
/// and what follows stands behind that.
pub proof fn law_require_leads_there(origin: Seq<Text>, n: nat, names: Seq<Text>)
    requires
        plain_names(origin),
        plain_names(names),
        forall|i: int| 0 <= i < names.len() ==> #[trigger] names[i] != "Parent"@,
    ensures
        emit::rewritten(from_script(n, names), dotted(origin)) == dotted(
            above(origin, n) + names,
        ),
{
    reveal_strlit(".");
    reveal_strlit("script");
    reveal_strlit("Parent");
    let ups = Seq::new(n, |i: int| "Parent"@);
    let all = seq!["script"@] + ups + names;
    let expr = from_script(n, names);
    assert("."@ =~= seq!['.']);
    assert forall|i: int| 0 <= i < all.len() implies !(#[trigger] all[i]).contains('.') by {
        if i > n {
            assert(names[i - n - 1] == all[i]);
        }
    }
    text::law_join_split(all, '.');
    assert(all.drop_first() =~= ups + names);
    assert(all =~= seq!["script"@] + (ups + names));
    lemma_starts_at_script(ups + names);
    lemma_segments(origin);
    lemma_walk_up(origin, n);
    lemma_walk_down(origin, ups, names);
}

/// One more step of a require: a name goes down to it from where the path led
/// before, and `Parent` drops the last name of where the path led, and keeps every
/// other.
pub proof fn law_require_goes_on(expr: Text, origin: Text, name: Text, at: Seq<Text>)
    requires
        expr == "script"@ || "script."@.is_prefix_of(expr),
        !name.contains('.'),
        at.len() > 0,
        plain_names(at),
        emit::rewritten(expr, origin) == dotted(at),
    ensures
        name != "Parent"@ ==> emit::rewritten(expr.push('.') + name, origin) == dotted(
            at.push(name),
        ),
        name == "Parent"@ ==> emit::rewritten(expr.push('.') + name, origin) == dotted(
            at.drop_last(),
        ),
{
    reveal_strlit("script");
    reveal_strlit("script.");
    reveal_strlit(".");
    assert("."@ =~= seq!['.']);
    let more = expr.push('.') + name;
    assert forall|i: int| 0 <= i < name.len() implies name[i] != '.' by {
        if name[i] == '.' {
            assert(name.contains('.'));
        }
    }
    text::lemma_split_plain(name, '.');
    text::lemma_split_cat(expr, '.', name);
    text::lemma_split_nonempty(expr, '.');
    let keep = |p: Text| p.len() > 0;
    let pieces = text::split(origin, '.');
    let segs = pieces.filter(keep);
    let steps = text::split(expr, '.').drop_first();
    assert(text::split(more, '.').drop_first() =~= steps.push(name));
    assert(steps.push(name).drop_last() =~= steps);
    assert("script."@.is_prefix_of(more)) by {
        if expr == "script"@ {
            assert(more.subrange(0, 7) =~= "script."@);
        } else {
            assert(expr.subrange(0, 7) == "script."@);
            assert(more.subrange(0, 7) =~= expr.subrange(0, 7));
        }
    }
    let there = emit::walked(segs, steps);
    assert(there == at) by {
        lemma_no_dots(origin);
        lemma_no_dots(expr);
        assert forall|i: int| 0 <= i < segs.len() implies !(#[trigger] segs[i]).contains('.') by {
            assert(segs.contains(segs[i]));
            pieces.lemma_filter_contains_rev(keep, segs[i]);
            let k = choose|k: int| 0 <= k < pieces.len() && pieces[k] == segs[i];
            assert(!pieces[k].contains('.'));
        }
        assert forall|i: int| 0 <= i < steps.len() implies !(#[trigger] steps[i]).contains('.') by {
            assert(steps[i] == text::split(expr, '.')[i + 1]);
        }
        lemma_walk_no_dots(segs, steps);
        text::law_join_split(at, '.');
        assert(at[0].len() > 0);
        lemma_dotted_holds(at);
        assert(there.len() > 0);
        text::law_join_split(there, '.');
    }
}

/// A path of names holds something.
proof fn lemma_dotted_holds(names: Seq<Text>)
    requires
        names.len() > 0,
        plain_names(names),
    ensures
        dotted(names).len() > 0,
{
    assert(names[names.len() - 1].len() > 0);
}

proof fn lemma_no_dots(s: Text)
    ensures
        forall|i: int|
            0 <= i < text::split(s, '.').len() ==> !(#[trigger] text::split(s, '.')[i]).contains(
                '.',
            ),
{
    text::lemma_split_clean(s, '.');
}

proof fn lemma_walk_no_dots(segs: Seq<Text>, steps: Seq<Text>)
    requires
        forall|i: int| 0 <= i < segs.len() ==> !(#[trigger] segs[i]).contains('.'),
        forall|i: int| 0 <= i < steps.len() ==> !(#[trigger] steps[i]).contains('.'),
    ensures
        forall|i: int|
            0 <= i < emit::walked(segs, steps).len() ==> !(#[trigger] emit::walked(
                segs,
                steps,
            )[i]).contains('.'),
    decreases steps.len(),
{
    if steps.len() > 0 {
        let some = steps.drop_last();
        assert forall|i: int| 0 <= i < some.len() implies !(#[trigger] some[i]).contains('.') by {
            assert(!steps[i].contains('.'));
        }
        lemma_walk_no_dots(segs, some);
        let at = emit::walked(segs, some);
        let now = emit::walked(segs, steps);
        assert forall|i: int| 0 <= i < now.len() implies !(#[trigger] now[i]).contains('.') by {
            if i < at.len() {
                assert(!at[i].contains('.'));
            } else {
                assert(!steps[steps.len() - 1].contains('.'));
            }
        }
    }
}

/// A require that does not start at `script` is absolute already, and stays.
pub proof fn law_absolute_require_stays(expr: Text, origin: Text)
    requires
        expr != "script"@,
        !"script."@.is_prefix_of(expr),
    ensures
        emit::rewritten(expr, origin) == expr,
{
}

/// A letter, a digit or an underscore.
pub open spec fn in_a_word(c: char) -> bool {
    ('a' <= c && c <= 'z') || ('A' <= c && c <= 'Z') || ('0' <= c && c <= '9') || c == '_'
}

/// A word is named just where it stands in the text with no letter, digit or
/// underscore before or behind it.
pub proof fn law_word_stands_alone(s: Text, name: Text)
    ensures
        emit::names_word(s, name) <==> name.len() > 0 && exists|a: Text, b: Text|
            s == #[trigger] (a + name + b) && (a.len() == 0 || !in_a_word(a.last())) && (b.len()
                == 0 || !in_a_word(b[0])),
{
    if emit::names_word(s, name) {
        let i = choose|i: int| emit::word_at(s, name, i);
        let a = s.take(i);
        let b = s.skip(i + name.len());
        assert(s.subrange(i, i + name.len()) =~= name);
        assert(s =~= a + name + b);
        assert(a.len() > 0 ==> a.last() == s[i - 1]);
        assert(b.len() > 0 ==> b[0] == s[i + name.len()]);
    }
    if name.len() > 0 && exists|a: Text, b: Text|
        s == #[trigger] (a + name + b) && (a.len() == 0 || !in_a_word(a.last())) && (b.len() == 0
            || !in_a_word(b[0])) {
        let (a, b) = choose|a: Text, b: Text|
            s == #[trigger] (a + name + b) && (a.len() == 0 || !in_a_word(a.last())) && (b.len()
                == 0 || !in_a_word(b[0]));
        let i = a.len() as int;
        assert(s.subrange(i, i + name.len()) =~= name);
        assert(text::occurs_at(s, name, i));
        assert(a.len() > 0 ==> s[i - 1] == a.last());
        assert(b.len() > 0 ==> s[i + name.len()] == b[0]);
        assert(emit::word_at(s, name, i));
    }
}

/// White space, and nothing else.
pub open spec fn is_space(w: Text) -> bool {
    forall|i: int| 0 <= i < w.len() ==> text::is_white(#[trigger] w[i])
}

pub proof fn lemma_trim_start(w: Text, rest: Text)
    requires
        is_space(w),
        rest.len() > 0 ==> !text::is_white(rest[0]),
    ensures
        text::trim_start(w + rest) == rest,
    decreases w.len(),
{
    if w.len() > 0 {
        assert(text::is_white(w[0]));
        let less = w.drop_first();
        assert forall|i: int| 0 <= i < less.len() implies text::is_white(#[trigger] less[i]) by {
            assert(text::is_white(w[i + 1]));
        }
        lemma_trim_start(less, rest);
        assert((w + rest).drop_first() =~= less + rest);
    } else {
        assert(w + rest =~= rest);
    }
}

proof fn lemma_trimmed_start(s: Text) -> (w: Text)
    ensures
        is_space(w),
        s == w + text::trim_start(s),
    decreases s.len(),
{
    if s.len() > 0 && text::is_white(s[0]) {
        let less = lemma_trimmed_start(s.drop_first());
        let w = seq![s[0]] + less;
        assert(s =~= seq![s[0]] + s.drop_first());
        assert(w + text::trim_start(s) =~= seq![s[0]] + (less + text::trim_start(s.drop_first())));
        assert forall|i: int| 0 <= i < w.len() implies text::is_white(#[trigger] w[i]) by {
            if i > 0 {
                assert(text::is_white(less[i - 1]));
            }
        }
        w
    } else {
        assert(Seq::<char>::empty() + s =~= s);
        Seq::empty()
    }
}

pub proof fn lemma_trim_end(rest: Text, w: Text)
    requires
        is_space(w),
        rest.len() > 0 ==> !text::is_white(rest.last()),
    ensures
        text::trim_end(rest + w) == rest,
    decreases w.len(),
{
    if w.len() > 0 {
        assert(text::is_white(w[w.len() - 1]));
        let less = w.drop_last();
        assert forall|i: int| 0 <= i < less.len() implies text::is_white(#[trigger] less[i]) by {
            assert(text::is_white(w[i]));
        }
        lemma_trim_end(rest, less);
        assert((rest + w).drop_last() =~= rest + less);
    } else {
        assert(rest + w =~= rest);
    }
}

proof fn lemma_trimmed_end(s: Text) -> (w: Text)
    ensures
        is_space(w),
        s == text::trim_end(s) + w,
    decreases s.len(),
{
    if s.len() > 0 && text::is_white(s.last()) {
        let less = lemma_trimmed_end(s.drop_last());
        let w = less.push(s.last());
        assert(s =~= s.drop_last().push(s.last()));
        assert(text::trim_end(s) + w =~= (text::trim_end(s.drop_last()) + less).push(s.last()));
        assert forall|i: int| 0 <= i < w.len() implies text::is_white(#[trigger] w[i]) by {
            if i < less.len() {
                assert(text::is_white(less[i]));
            }
        }
        w
    } else {
        assert(s + Seq::<char>::empty() =~= s);
        Seq::empty()
    }
}

/// A letter or a digit.
pub open spec fn letter_or_digit(c: char) -> bool {
    ('a' <= c && c <= 'z') || ('A' <= c && c <= 'Z') || ('0' <= c && c <= '9')
}

/// A text reaches through a name where the name is followed by a dot, with white
/// space between or not, and no letter or digit stands before it.
pub proof fn law_alias_before_a_dot(a: Text, alias: Text, w: Text, b: Text)
    requires
        is_space(w),
        a.len() > 0 ==> !letter_or_digit(a.last()),
    ensures
        emit::names_alias(by_dot(a, alias, w, b), alias),
{
    reveal_strlit(".");
    let s = a + alias + w + "."@ + b;
    let i = a.len() as int;
    let rest = "."@ + b;
    assert(s.subrange(i, i + alias.len()) =~= alias);
    assert(s.skip(i + alias.len()) =~= w + rest);
    assert(!text::is_white('.'));
    lemma_trim_start(w, rest);
    assert("."@.is_prefix_of(rest)) by {
        assert(rest.subrange(0, 1) =~= "."@);
    }
    assert(a.len() > 0 ==> s[i - 1] == a.last());
    assert(emit::alias_at(s, alias, i));
}

/// A text reaches through a name where the name stands alone between the
/// parentheses of `typeof`.
pub proof fn law_alias_in_typeof(a: Text, v: Text, alias: Text, w: Text, b: Text)
    requires
        is_space(v),
        is_space(w),
    ensures
        emit::names_alias(in_typeof(a, v, alias, w, b), alias),
{
    reveal_strlit("typeof(");
    reveal_strlit(")");
    let lead = a + "typeof("@;
    let s = a + "typeof("@ + v + alias + w + ")"@ + b;
    let i = (lead + v).len() as int;
    let rest = ")"@ + b;
    assert(s.subrange(i, i + alias.len()) =~= alias);
    assert(s.skip(i + alias.len()) =~= w + rest);
    assert(s.take(i) =~= lead + v);
    assert(!text::is_white(')') && !text::is_white('('));
    lemma_trim_start(w, rest);
    lemma_trim_end(lead, v);
    assert(")"@.is_prefix_of(rest)) by {
        assert(rest.subrange(0, 1) =~= ")"@);
    }
    assert("typeof("@.is_suffix_of(lead)) by {
        assert(lead.subrange(lead.len() - 7, lead.len() as int) =~= "typeof("@);
    }
    if v.len() > 0 {
        assert(text::is_white(v[v.len() - 1]));
        assert(s.take(i)[i - 1] == (lead + v)[i - 1]);
        assert(s[i - 1] == v[v.len() - 1]);
    } else {
        assert(s.take(i)[i - 1] == (lead + v)[i - 1]);
        assert(s[i - 1] == '(');
    }
    assert(emit::alias_at(s, alias, i));
}

/// A name with a dot behind it, after white space.
pub open spec fn by_dot(a: Text, alias: Text, w: Text, b: Text) -> Text {
    a + alias + w + "."@ + b
}

/// A name alone between the parentheses of `typeof`.
pub open spec fn in_typeof(a: Text, v: Text, alias: Text, w: Text, b: Text) -> Text {
    a + "typeof("@ + v + alias + w + ")"@ + b
}

/// The name stands in the text before a dot, and no letter or digit before it.
pub open spec fn has_by_dot(s: Text, alias: Text) -> bool {
    exists|a: Text, w: Text, b: Text|
        s == #[trigger] by_dot(a, alias, w, b) && is_space(w) && (a.len() > 0 ==> !letter_or_digit(
            a.last(),
        ))
}

/// The name stands in the text alone in a `typeof`.
pub open spec fn has_in_typeof(s: Text, alias: Text) -> bool {
    exists|a: Text, v: Text, w: Text, b: Text|
        s == #[trigger] in_typeof(a, v, alias, w, b) && is_space(v) && is_space(w)
}

/// A text reaches through a name in no other way: where it does, the name stands
/// in it with no letter or digit before it, and behind it, after white space, comes
/// a dot, or the parenthesis that closes a `typeof` with nothing else in it.
pub proof fn law_alias_only_so(s: Text, alias: Text)
    requires
        emit::names_alias(s, alias),
    ensures
        has_by_dot(s, alias) || has_in_typeof(s, alias),
{
    let i = choose|i: int| emit::alias_at(s, alias, i);
    let a = s.take(i);
    let tail = s.skip(i + alias.len());
    let rest = text::trim_start(tail);
    let w = lemma_trimmed_start(tail);
    let b = rest.skip(1);
    assert(s.subrange(i, i + alias.len()) == alias);
    lemma_cut(s, alias, i);
    assert(a.len() > 0 ==> a.last() == s[i - 1]);
    if "."@.is_prefix_of(rest) {
        lemma_first_char(rest, "."@, '.');
        lemma_by_dot(a, alias, w, b);
        assert(s == by_dot(a, alias, w, b));
    } else {
        lemma_first_char(rest, ")"@, ')');
        let lead = text::trim_end(a);
        let v = lemma_trimmed_end(a);
        let n = lead.len() - "typeof("@.len();
        let c = lead.take(n);
        assert(lead.subrange(n, lead.len() as int) == "typeof("@);
        assert(lead =~= c + lead.subrange(n, lead.len() as int));
        lemma_in_typeof(c, v, alias, w, b);
        assert(s == in_typeof(c, v, alias, w, b));
    }
}

proof fn lemma_cut(s: Text, alias: Text, i: int)
    requires
        text::occurs_at(s, alias, i),
    ensures
        s == s.take(i) + alias + s.skip(i + alias.len()),
{
    assert(s =~= s.take(i) + s.subrange(i, i + alias.len()) + s.skip(i + alias.len()));
}

proof fn lemma_first_char(rest: Text, lit: Text, c: char)
    requires
        lit.is_prefix_of(rest),
        lit == "."@ && c == '.' || lit == ")"@ && c == ')',
    ensures
        rest == lit + rest.skip(1),
{
    reveal_strlit(".");
    reveal_strlit(")");
    assert(rest.subrange(0, 1) == lit);
    assert(rest =~= rest.subrange(0, 1) + rest.skip(1));
}

proof fn lemma_by_dot(a: Text, alias: Text, w: Text, b: Text)
    ensures
        a + alias + (w + ("."@ + b)) == by_dot(a, alias, w, b),
{
    assert(a + alias + (w + ("."@ + b)) =~= by_dot(a, alias, w, b));
}

proof fn lemma_in_typeof(c: Text, v: Text, alias: Text, w: Text, b: Text)
    ensures
        c + "typeof("@ + v + alias + (w + (")"@ + b)) == in_typeof(c, v, alias, w, b),
{
    assert(c + "typeof("@ + v + alias + (w + (")"@ + b)) =~= in_typeof(c, v, alias, w, b));
}

/// Lines, each with a line feed behind it.
pub open spec fn ended(lines: Seq<Text>) -> Text
    decreases lines.len(),
{
    if lines.len() == 0 {
        Seq::empty()
    } else {
        ended(lines.drop_last()) + lines.last() + "\n"@
    }
}

/// Lines with a blank line behind them, or nothing.
pub open spec fn paragraph(lines: Seq<Text>) -> Text {
    if lines.len() == 0 {
        Seq::empty()
    } else {
        ended(lines) + "\n"@
    }
}

pub proof fn lemma_block(lines: Seq<Text>)
    requires
        lines.len() > 0,
    ensures
        emit::block(lines) == ended(lines),
    decreases lines.len(),
{
    if lines.len() > 1 {
        lemma_block(lines.drop_last());
        assert(emit::block(lines) =~= ended(lines));
    } else {
        assert(ended(lines.drop_last()) =~= Seq::empty());
        assert(emit::block(lines) =~= ended(lines));
    }
}

pub proof fn lemma_ended_cat(a: Seq<Text>, b: Seq<Text>)
    ensures
        ended(a + b) == ended(a) + ended(b),
    decreases b.len(),
{
    if b.len() == 0 {
        assert(a + b =~= a);
        assert(ended(a) + ended(b) =~= ended(a));
    } else {
        lemma_ended_cat(a, b.drop_last());
        assert((a + b).drop_last() =~= a + b.drop_last());
        assert(ended(a + b) =~= ended(a) + ended(b));
    }
}

/// A line of a public type.
pub open spec fn typed_line(member: (Text, Text)) -> Text {
    "\t"@ + member.0 + ": "@ + emit::reindented(member.1, "\t"@) + ","@
}

/// Everything that a leaf holds, in order: the file of the module and the word not
/// to edit, what the types reach through, the local types, the public type with
/// the fields and then the methods, and an empty table.
pub proof fn law_leaf_is_made_of(m: ModuleView, origin: Text)
    ensures
        ({
            let instance: Seq<(Text, Text)> = if m.kind == "Component"@ && !(exists|i: int|
                0 <= i < m.fields.len() && (#[trigger] m.fields[i]).0 == "Instance"@) {
                seq![("Instance"@, "Instance"@)]
            } else {
                Seq::empty()
            };
            let members = instance + m.fields + m.methods;
            let types = emit::needed(
                m.local_types,
                Seq::new(members.len(), |i: int| members[i].1),
            );
            emit::leaf_text(m, origin) == "--!strict\n-- GERADO por modux a partir de "@ + m.file
                + "\n-- NAO EDITAR A MAO: a proxima geracao sobrescreve.\n"@ + "\n"@ + paragraph(
                emit::header_lines(m, origin),
            ) + paragraph(Seq::new(types.len(), |i: int| types[i].text))
                + "export type Public = {"@ + "\n"@ + ended(
                Seq::new(members.len(), |i: int| typed_line(members[i])),
            ) + "}"@ + "\n"@ + "\n"@ + "return {}\n"@
        }),
{
    let members = emit::members_of(m);
    let names = table::keys(m.fields);
    if names.contains("Instance"@) {
        let i = choose|i: int| 0 <= i < names.len() && names[i] == "Instance"@;
        assert(m.fields[i].0 == "Instance"@);
    }
    if exists|i: int| 0 <= i < m.fields.len() && (#[trigger] m.fields[i]).0 == "Instance"@ {
        let i = choose|i: int|
            0 <= i < m.fields.len() && (#[trigger] m.fields[i]).0 == "Instance"@;
        assert(names[i] == "Instance"@);
        assert(names.contains("Instance"@));
    }
    let tys = Seq::new(members.len(), |i: int| members[i].1);
    assert(emit::types_of(members) =~= tys);
    let types = emit::needed(m.local_types, tys);
    let texts = Seq::new(types.len(), |i: int| types[i].text);
    assert(emit::texts_of(types) =~= texts);
    let header = emit::header_lines(m, origin);
    let lines = Seq::new(members.len(), |i: int| typed_line(members[i]));
    assert(emit::public_lines(m) =~= seq!["export type Public = {"@] + lines + seq!["}"@]);
    lemma_leaf_shape(emit::leaf_head(m.file), header, texts, lines);
}

/// The blocks of a leaf, one after the other.
proof fn lemma_leaf_shape(first: Text, header: Seq<Text>, texts: Seq<Text>, lines: Seq<Text>)
    ensures
        ({
            let head: Seq<Text> = if header.len() > 0 {
                seq![emit::block(header)]
            } else {
                Seq::empty()
            };
            let copied: Seq<Text> = if texts.len() > 0 {
                seq![emit::block(texts)]
            } else {
                Seq::empty()
            };
            let public = emit::block(seq!["export type Public = {"@] + lines + seq!["}"@]);
            text::joined(seq![first] + head + copied + seq![public, "return {}\n"@], "\n"@)
                == first + "\n"@ + paragraph(header) + paragraph(texts) + "export type Public = {"@
                + "\n"@ + ended(lines) + "}"@ + "\n"@ + "\n"@ + "return {}\n"@
        }),
{
    let open = seq!["export type Public = {"@];
    let close = seq!["}"@];
    lemma_block(open + lines + close);
    lemma_ended_cat(open + lines, close);
    lemma_ended_cat(open, lines);
    lemma_ended_one("export type Public = {"@);
    lemma_ended_one("}"@);
    let public = emit::block(open + lines + close);
    let last = "return {}\n"@;
    let head: Seq<Text> = if header.len() > 0 {
        seq![emit::block(header)]
    } else {
        Seq::empty()
    };
    let copied: Seq<Text> = if texts.len() > 0 {
        seq![emit::block(texts)]
    } else {
        Seq::empty()
    };
    lemma_paragraph(header);
    lemma_paragraph(texts);
    let blocks = seq![first] + head + copied + seq![public, last];
    let lead = seq![first] + head + copied + seq![public];
    assert(blocks =~= lead.push(last));
    assert(blocks.drop_last() =~= lead);
    lemma_joined_ended(blocks);
    lemma_ended_cat(seq![first] + head + copied, seq![public]);
    lemma_ended_cat(seq![first] + head, copied);
    lemma_ended_cat(seq![first], head);
    lemma_ended_one(first);
    lemma_ended_one(public);
    lemma_cat_leaf(
        first,
        "\n"@,
        paragraph(header),
        paragraph(texts),
        "export type Public = {"@,
        ended(lines),
        "}"@,
        last,
    );
}

proof fn lemma_cat_leaf(
    a: Text,
    n: Text,
    b: Text,
    c: Text,
    d: Text,
    e: Text,
    f: Text,
    g: Text,
)
    ensures
        ((a + n) + b + c + (((d + n) + e + (f + n)) + n)) + g == a + n + b + c + d + n + e + f + n
            + n + g,
{
    assert(((a + n) + b + c + (((d + n) + e + (f + n)) + n)) + g =~= a + n + b + c + d + n + e + f
        + n + n + g);
}

/// One line with a line feed behind it.
pub proof fn lemma_ended_one(line: Text)
    ensures
        ended(seq![line]) == line + "\n"@,
{
    assert(seq![line].drop_last() =~= Seq::<Text>::empty());
    assert(ended(seq![line].drop_last()) =~= Seq::<char>::empty());
    assert(Seq::<char>::empty() + line =~= line);
}

proof fn lemma_paragraph(lines: Seq<Text>)
    ensures
        ended(
            if lines.len() > 0 {
                seq![emit::block(lines)]
            } else {
                Seq::empty()
            },
        ) == paragraph(lines),
{
    if lines.len() > 0 {
        lemma_block(lines);
        lemma_ended_one(emit::block(lines));
    }
}

pub proof fn lemma_joined_ended(blocks: Seq<Text>)
    requires
        blocks.len() > 0,
    ensures
        text::joined(blocks, "\n"@) == ended(blocks.drop_last()) + blocks.last(),
    decreases blocks.len(),
{
    if blocks.len() > 1 {
        lemma_joined_ended(blocks.drop_last());
    } else {
        assert(blocks.drop_last() =~= Seq::<Text>::empty());
        assert(Seq::<char>::empty() + blocks.last() =~= blocks.last());
    }
}

/// A type on one line stands in the leaf as it was written.
pub proof fn law_plain_type_is_transcribed(name: Text, ty: Text)
    requires
        !ty.contains('\n'),
    ensures
        typed_line((name, ty)) == "\t"@ + name + ": "@ + ty + ","@,
{
    assert forall|i: int| 0 <= i < ty.len() implies ty[i] != '\n' by {
        if ty[i] == '\n' {
            assert(ty.contains('\n'));
        }
    }
    text::lemma_split_plain(ty, '\n');
    let lines = text::lines(ty);
    if ty.len() > 0 {
        assert(text::split(ty, '\n').drop_last() =~= Seq::<Text>::empty());
        assert(lines =~= seq![ty]);
        assert(lines.drop_first() =~= Seq::<Text>::empty());
        assert(ty + Seq::<char>::empty() =~= ty);
    } else {
        assert(lines =~= Seq::<Text>::empty());
    }
}

/// What stands before the types of a leaf: a line `local x = game:GetService("..")`
/// for each service of the module that some require starts at, one for each other
/// first name of a require, and a line `local x = require(..)` for each require
/// that the types reach through.
pub proof fn law_header_is_made_of(m: ModuleView, origin: Text, line: Text)
    ensures
        emit::header_lines(m, origin).contains(line) <==> {
            ||| exists|s: ServiceView| #[trigger]
                m.services.contains(s) && line == "local "@ + s.alias + " = game:GetService(\""@
                    + s.service + "\")"@ && exists|r: ImportView| #[trigger]
                    emit::leaf_requires(m).contains(r) && (s.alias + "."@).is_prefix_of(
                        emit::rewritten(r.expr, origin),
                    )
            ||| exists|root: Text|
                line == "local "@ + root + " = game:GetService(\""@ + root + "\")"@
                    && #[trigger] emit::extra_roots(
                    emit::leaf_exprs(m, origin),
                    emit::aliases_of(emit::leaf_services(m, emit::leaf_exprs(m, origin))),
                ).contains(root)
            ||| exists|r: ImportView| #[trigger]
                emit::leaf_requires(m).contains(r) && line == "local "@ + r.alias + " = require("@
                    + emit::rewritten(r.expr, origin) + ")"@
        },
{
    reveal_strlit(".");
    let imports = emit::leaf_requires(m);
    let exprs = emit::leaf_exprs(m, origin);
    let keep = |s: ServiceView| emit::starts_at(exprs, s.alias);
    let services = m.services.filter(keep);
    assert(services == emit::leaf_services(m, exprs));
    let roots = emit::extra_roots(exprs, emit::aliases_of(services));
    let a = services.map_values(|s: ServiceView| emit::service_line(s.alias, s.service));
    let b = roots.map_values(|root: Text| emit::service_line(root, root));
    let c = imports.map_values(
        |r: ImportView| emit::require_line(r.alias, emit::rewritten(r.expr, origin)),
    );
    let all = emit::header_lines(m, origin);
    assert(all == a + b + c);
    if all.contains(line) {
        let k = choose|k: int| 0 <= k < all.len() && all[k] == line;
        if k < a.len() {
            let s = services[k];
            assert(services.contains(s));
            m.services.lemma_filter_contains_rev(keep, s);
            m.services.lemma_filter_pred(keep, k);
            let j = choose|j: int|
                0 <= j < exprs.len() && s.alias.push('.').is_prefix_of(#[trigger] exprs[j]);
            assert(imports.contains(imports[j]));
            assert(s.alias + "."@ =~= s.alias.push('.'));
            assert(m.services.contains(s));
        } else if k < a.len() + b.len() {
            assert(roots.contains(roots[k - a.len()]));
        } else {
            assert(imports.contains(imports[k - a.len() - b.len()]));
        }
    }
    assert forall|s: ServiceView| #[trigger]
        m.services.contains(s) && line == "local "@ + s.alias + " = game:GetService(\""@ + s.service
            + "\")"@ && (exists|r: ImportView| #[trigger]
            imports.contains(r) && (s.alias + "."@).is_prefix_of(
                emit::rewritten(r.expr, origin),
            )) implies all.contains(line) by {
        let r = choose|r: ImportView| #[trigger]
            imports.contains(r) && (s.alias + "."@).is_prefix_of(emit::rewritten(r.expr, origin));
        let j = choose|j: int| 0 <= j < imports.len() && imports[j] == r;
        assert(s.alias + "."@ =~= s.alias.push('.'));
        assert(s.alias.push('.').is_prefix_of(exprs[j]));
        let i = choose|i: int| 0 <= i < m.services.len() && m.services[i] == s;
        m.services.lemma_filter_contains(keep, i);
        let k = choose|k: int| 0 <= k < services.len() && services[k] == s;
        assert(all[k] == line);
    }
    assert forall|root: Text|
        line == "local "@ + root + " = game:GetService(\""@ + root + "\")"@
            && #[trigger] roots.contains(root) implies all.contains(line) by {
        let k = choose|k: int| 0 <= k < roots.len() && roots[k] == root;
        assert(all[a.len() + k] == line);
    }
    assert forall|r: ImportView| #[trigger]
        imports.contains(r) && line == "local "@ + r.alias + " = require("@ + emit::rewritten(
            r.expr,
            origin,
        ) + ")"@ implies all.contains(line) by {
        let k = choose|k: int| 0 <= k < imports.len() && imports[k] == r;
        assert(all[a.len() + b.len() + k] == line);
    }
}

/// Lines as a type has them: an indentation of spaces and tabs, and behind it
/// nothing or what does not begin with white space.
pub open spec fn indented(ws: Seq<Text>, cs: Seq<Text>) -> Seq<Text> {
    Seq::new(ws.len(), |i: int| ws[i] + cs[i])
}

/// Lines under another: each on a line of its own behind `at`, without the first
/// `c` characters of its indentation; and one that holds nothing as an empty line.
pub open spec fn moved(ws: Seq<Text>, cs: Seq<Text>, c: int, at: Text) -> Text
    decreases ws.len(),
{
    if ws.len() == 0 {
        Seq::empty()
    } else {
        moved(ws.drop_last(), cs.drop_last(), c, at) + "\n"@ + (if cs.last().len() == 0 {
            Seq::empty()
        } else {
            at + ws.last().skip(c) + cs.last()
        })
    }
}

proof fn lemma_indented_line(w: Text, c: Text)
    requires
        emit::is_indentation(w),
        c.len() > 0 ==> !text::is_white(c[0]),
    ensures
        emit::indent(w + c) == w.len(),
        emit::blank(w + c) == (c.len() == 0),
        forall|n: int| 0 <= n <= w.len() ==> #[trigger] emit::drop_bytes(w + c, n) == w.skip(n) + c,
    decreases w.len(),
{
    if w.len() == 0 {
        assert(w + c =~= c);
        assert(text::trim_start(c) == c);
        if c.len() > 0 {
            emit::lemma_trim_end_keeps(c);
        }
        assert(w.skip(0) + c =~= c);
    } else {
        let less = w.drop_first();
        assert(w[0] == ' ' || w[0] == '\t');
        assert forall|i: int| 0 <= i < less.len() implies #[trigger] less[i] == ' ' || less[i]
            == '\t' by {
            assert(w[i + 1] == ' ' || w[i + 1] == '\t');
        }
        lemma_indented_line(less, c);
        assert((w + c).drop_first() =~= less + c);
        assert((w + c)[0] == w[0]);
        assert forall|n: int| 0 <= n <= w.len() implies #[trigger] emit::drop_bytes(w + c, n)
            == w.skip(n) + c by {
            if n > 0 {
                assert(emit::drop_bytes(less + c, n - 1) == less.skip(n - 1) + c);
                assert(less.skip(n - 1) =~= w.skip(n));
            } else {
                assert(w.skip(0) =~= w);
            }
        }
    }
}

/// The indentation that lines have in common: no line that holds anything has less,
/// and one has no more.
spec fn in_common(ws: Seq<Text>, cs: Seq<Text>, common: Option<int>) -> bool {
    match common {
        Some(n) => common_to(ws, cs, n) && one_has(ws, cs, n),
        None => none_holds(cs),
    }
}

spec fn common_to(ws: Seq<Text>, cs: Seq<Text>, n: int) -> bool {
    forall|i: int| #![trigger ws[i]] 0 <= i < ws.len() && cs[i].len() > 0 ==> n <= ws[i].len()
}

spec fn one_has(ws: Seq<Text>, cs: Seq<Text>, n: int) -> bool {
    exists|i: int| 0 <= i < ws.len() && cs[i].len() > 0 && (#[trigger] ws[i]).len() == n
}

spec fn none_holds(cs: Seq<Text>) -> bool {
    forall|i: int| 0 <= i < cs.len() ==> (#[trigger] cs[i]).len() == 0
}

/// Lines are indented by spaces and tabs.
spec fn by_spaces(ws: Seq<Text>, cs: Seq<Text>) -> bool {
    forall|i: int|
        #![trigger ws[i]]
        0 <= i < ws.len() ==> emit::is_indentation(ws[i]) && (cs[i].len() > 0 ==> !text::is_white(
            cs[i][0],
        ))
}

proof fn lemma_common(ws: Seq<Text>, cs: Seq<Text>)
    requires
        ws.len() == cs.len(),
        by_spaces(ws, cs),
    ensures
        in_common(ws, cs, emit::common_indent(indented(ws, cs))),
    decreases ws.len(),
{
    let all = indented(ws, cs);
    if ws.len() > 0 {
        let v = ws.drop_last();
        let d = cs.drop_last();
        let n = ws.len() - 1;
        assert(by_spaces(v, d)) by {
            assert forall|i: int| #![trigger v[i]] 0 <= i < v.len() implies emit::is_indentation(
                v[i],
            ) && (d[i].len() > 0 ==> !text::is_white(d[i][0])) by {
                assert(emit::is_indentation(ws[i]));
            }
        }
        lemma_common(v, d);
        assert(all.drop_last() =~= indented(v, d));
        assert(emit::is_indentation(ws[n]));
        lemma_indented_line(ws[n], cs[n]);
        assert(all.last() == ws[n] + cs[n]);
        let before = emit::common_indent(indented(v, d));
        let now = emit::common_indent(all);
        if cs[n].len() == 0 {
            assert(now == before);
        }
        if let Some(k) = now {
            assert forall|i: int| #![trigger ws[i]] 0 <= i < ws.len() && cs[i].len() > 0 implies k
                <= ws[i].len() by {
                if i < n {
                    assert(v[i] == ws[i] && d[i] == cs[i]);
                }
            }
            if before == now {
                let i = choose|i: int|
                    0 <= i < v.len() && d[i].len() > 0 && (#[trigger] v[i]).len() == k;
                assert(ws[i].len() == k && cs[i].len() > 0);
            } else {
                assert(ws[n].len() == k);
            }
            assert(one_has(ws, cs, k));
        } else {
            assert forall|i: int| 0 <= i < cs.len() implies (#[trigger] cs[i]).len() == 0 by {
                if i < n {
                    assert(d[i] == cs[i]);
                }
            }
        }
    }
}

proof fn lemma_indented_lines(ws: Seq<Text>, cs: Seq<Text>, c: int, at: Text)
    requires
        ws.len() == cs.len(),
        by_spaces(ws, cs),
        common_to(ws, cs, c),
        0 <= c,
    ensures
        emit::laid_out(indented(ws, cs), c, at) == moved(ws, cs, c, at),
    decreases ws.len(),
{
    reveal_strlit("\n");
    let all = indented(ws, cs);
    if ws.len() > 0 {
        let v = ws.drop_last();
        let d = cs.drop_last();
        assert(by_spaces(v, d)) by {
            assert forall|i: int| #![trigger v[i]] 0 <= i < v.len() implies emit::is_indentation(
                v[i],
            ) && (d[i].len() > 0 ==> !text::is_white(d[i][0])) by {
                assert(emit::is_indentation(ws[i]));
            }
        }
        assert(common_to(v, d, c)) by {
            assert forall|i: int| #![trigger v[i]] 0 <= i < v.len() && d[i].len() > 0 implies c
                <= v[i].len() by {
                assert(v[i] == ws[i]);
            }
        }
        lemma_indented_lines(v, d, c, at);
        assert(all.drop_last() =~= indented(v, d));
        let n = ws.len() - 1;
        assert(emit::is_indentation(ws[n]));
        lemma_indented_line(ws[n], cs[n]);
        assert(all.last() == ws[n] + cs[n]);
        if cs[n].len() > 0 {
            assert(emit::drop_bytes(ws[n] + cs[n], c) == ws[n].skip(c) + cs[n]);
        }
        assert(emit::laid_out(all, c, at) =~= moved(ws, cs, c, at));
    }
}

/// A type of several lines in a leaf: the first line stays, and each line under it
/// comes behind `at` without the indentation that those that hold anything have in
/// common, all of it and no more, so that how far one is indented below another is
/// kept, and so is what the line holds.
pub proof fn law_type_is_laid_out(first: Text, ws: Seq<Text>, cs: Seq<Text>, c: int, at: Text)
    requires
        ws.len() == cs.len(),
        ws.len() > 0,
        !first.contains('\n') && (first.len() > 0 ==> first.last() != '\r'),
        forall|i: int|
            #![trigger ws[i]]
            0 <= i < ws.len() ==> emit::is_indentation(ws[i]) && !cs[i].contains('\n') && (
            cs[i].len() > 0 ==> cs[i].last() != '\r' && !text::is_white(cs[i][0]) && c
                <= ws[i].len()),
        cs.last().len() > 0,
        exists|i: int| 0 <= i < ws.len() && cs[i].len() > 0 && (#[trigger] ws[i]).len() == c,
    ensures
        emit::reindented(
            text::joined(seq![first] + indented(ws, cs), "\n"@),
            at,
        ) == first + moved(ws, cs, c, at),
{
    reveal_strlit("\n");
    let rest = indented(ws, cs);
    let all = seq![first] + rest;
    let ty = text::joined(all, "\n"@);
    assert("\n"@ =~= seq!['\n']);
    assert forall|i: int| 0 <= i < all.len() implies !(#[trigger] all[i]).contains('\n')
        && text::without_return(all[i]) == all[i] by {
        if i > 0 {
            let w = ws[i - 1];
            let x = cs[i - 1];
            assert(all[i] == w + x);
            assert(emit::is_indentation(w));
            if (w + x).contains('\n') {
                let k = choose|k: int| 0 <= k < (w + x).len() && (w + x)[k] == '\n';
                if k < w.len() {
                    assert(w[k] == '\n');
                } else {
                    assert(x[k - w.len()] == '\n');
                    assert(x.contains('\n'));
                }
            }
            if x.len() > 0 {
                assert((w + x).last() == x.last());
            } else if w.len() > 0 {
                assert(w + x =~= w);
                assert(w[w.len() - 1] != '\r');
            }
        }
    }
    text::law_join_split(all, '\n');
    let i = choose|i: int| 0 <= i < ws.len() && cs[i].len() > 0 && (#[trigger] ws[i]).len() == c;
    assert(by_spaces(ws, cs));
    assert(common_to(ws, cs, c));
    assert(0 <= i < ws.len() && cs[i].len() > 0 && ws[i].len() == c);
    lemma_indented_lines(ws, cs, c, at);
    lemma_common(ws, cs);
    assert(!none_holds(cs)) by {
        assert(cs[i].len() > 0);
    }
    let n = emit::common_indent(rest)->0;
    let j = choose|j: int| 0 <= j < ws.len() && cs[j].len() > 0 && (#[trigger] ws[j]).len() == n;
    assert(emit::common_indent(rest) == Some(c));
    assert(all.last() == ws.last() + cs.last());
    assert(text::lines(ty) =~= all) by {
        let pieces = text::split(ty, '\n');
        assert(pieces == all);
        assert(pieces.last().len() > 0);
        assert forall|k: int| 0 <= k < all.len() implies text::lines(ty)[k] == all[k] by {
            assert(text::without_return(all[k]) == all[k]);
        }
    }
    assert(text::lines(ty).drop_first() =~= rest);
}

/// What stands before the types comes in this order: services, first names,
/// requires; each as the module has them.
pub proof fn law_header_keeps_the_order(m: ModuleView, origin: Text)
    ensures
        ({
            let imports = m.requires.filter(
                |r: ImportView| emit::alias_cited(emit::leaf_texts(m), r.alias),
            );
            let exprs = imports.map_values(|r: ImportView| emit::rewritten(r.expr, origin));
            let services = m.services.filter(|s: ServiceView| emit::starts_at(exprs, s.alias));
            let roots = emit::extra_roots(
                exprs,
                services.map_values(|s: ServiceView| s.alias),
            );
            emit::header_lines(m, origin) == services.map_values(
                |s: ServiceView|
                    "local "@ + s.alias + " = game:GetService(\""@ + s.service + "\")"@,
            ) + roots.map_values(
                |root: Text| "local "@ + root + " = game:GetService(\""@ + root + "\")"@,
            ) + imports.map_values(
                |r: ImportView|
                    "local "@ + r.alias + " = require("@ + emit::rewritten(r.expr, origin) + ")"@,
            )
        }),
{
    let imports = m.requires.filter(
        |r: ImportView| emit::alias_cited(emit::leaf_texts(m), r.alias),
    );
    let exprs = imports.map_values(|r: ImportView| emit::rewritten(r.expr, origin));
    assert(emit::leaf_requires(m) == imports);
    assert(emit::leaf_exprs(m, origin) == exprs);
    let services = m.services.filter(|s: ServiceView| emit::starts_at(exprs, s.alias));
    assert(emit::leaf_services(m, exprs) == services);
    let roots = emit::extra_roots(exprs, services.map_values(|s: ServiceView| s.alias));
    let a = services.map_values(
        |s: ServiceView| "local "@ + s.alias + " = game:GetService(\""@ + s.service + "\")"@,
    );
    let b = roots.map_values(
        |root: Text| "local "@ + root + " = game:GetService(\""@ + root + "\")"@,
    );
    let c = imports.map_values(
        |r: ImportView|
            "local "@ + r.alias + " = require("@ + emit::rewritten(r.expr, origin) + ")"@,
    );
    assert(services.map_values(|s: ServiceView| emit::service_line(s.alias, s.service)) =~= a);
    assert(roots.map_values(|root: Text| emit::service_line(root, root)) =~= b);
    assert(imports.map_values(
        |r: ImportView| emit::require_line(r.alias, emit::rewritten(r.expr, origin)),
    ) =~= c);
}

/// A path in the game is followed one name after the other: `Parent` drops the
/// last name where there is one, any other name is appended, and what follows goes
/// on from there.
pub proof fn law_followed_name_by_name(at: Seq<Text>, a: Seq<Text>, b: Seq<Text>, name: Text)
    ensures
        emit::walked(at, Seq::empty()) == at,
        emit::walked(at, a + b) == emit::walked(emit::walked(at, a), b),
        name != "Parent"@ ==> emit::walked(at, seq![name]) == at.push(name),
        at.len() > 0 ==> emit::walked(at, seq!["Parent"@]) == at.drop_last(),
        at.len() == 0 ==> emit::walked(at, seq!["Parent"@]) == at,
    decreases b.len(),
{
    let none = Seq::<Text>::empty();
    assert(emit::walked(at, none) == at);
    assert(seq![name].drop_last() =~= none);
    assert(seq!["Parent"@].drop_last() =~= none);
    assert(seq![name].last() == name);
    assert(seq!["Parent"@].last() == "Parent"@);
    if b.len() > 0 {
        law_followed_name_by_name(at, a, b.drop_last(), name);
        assert((a + b).drop_last() =~= a + b.drop_last());
        assert((a + b).last() == b.last());
    } else {
        assert(a + b =~= a);
    }
}

/// A require that starts at `script` is followed from the module's own path, of
/// which only the names count, by every piece that stands behind `script`.
pub proof fn law_require_is_followed(origin: Seq<Text>, steps: Seq<Text>)
    requires
        origin.len() > 0,
        forall|i: int| 0 <= i < origin.len() ==> !(#[trigger] origin[i]).contains('.'),
        forall|i: int| 0 <= i < steps.len() ==> !(#[trigger] steps[i]).contains('.'),
    ensures
        emit::rewritten(dotted(seq!["script"@] + steps), dotted(origin)) == dotted(
            emit::walked(origin.filter(|p: Text| p.len() > 0), steps),
        ),
{
    reveal_strlit(".");
    reveal_strlit("script");
    assert("."@ =~= seq!['.']);
    let all = seq!["script"@] + steps;
    assert forall|i: int| 0 <= i < all.len() implies !(#[trigger] all[i]).contains('.') by {
        if i > 0 {
            assert(all[i] == steps[i - 1]);
        }
    }
    text::law_join_split(all, '.');
    text::law_join_split(origin, '.');
    assert(all.drop_first() =~= steps);
    lemma_starts_at_script(steps);
}

/// The indentation of a line is as many bytes as the white space that it begins
/// with takes, and to drop so many bytes leaves what stands behind.
pub proof fn law_indentation_in_bytes(w: Text, rest: Text)
    requires
        is_space(w),
        rest.len() > 0 ==> !text::is_white(rest[0]),
    ensures
        emit::indent(w + rest) == syntax::bytes_of(w),
        emit::drop_bytes(w + rest, syntax::bytes_of(w)) == rest,
    decreases w.len(),
{
    let all = w + rest;
    if w.len() > 0 {
        let less = w.drop_first();
        assert(text::is_white(w[0]));
        assert forall|i: int| 0 <= i < less.len() implies text::is_white(#[trigger] less[i]) by {
            assert(text::is_white(w[i + 1]));
        }
        law_indentation_in_bytes(less, rest);
        assert(all.drop_first() =~= less + rest);
        let first = seq![w[0]];
        assert(w =~= first + less);
        lemma_bytes_cat(first, less);
        assert(first.drop_last() =~= Seq::<char>::empty());
        assert(syntax::bytes_of(Seq::<char>::empty()) == 0);
        assert(syntax::bytes_of(first) == text::width(w[0]));
        lemma_bytes_count(less);
    } else {
        assert(all =~= rest);
    }
}

proof fn lemma_bytes_cat(a: Text, b: Text)
    ensures
        syntax::bytes_of(a + b) == syntax::bytes_of(a) + syntax::bytes_of(b),
    decreases b.len(),
{
    if b.len() > 0 {
        lemma_bytes_cat(a, b.drop_last());
        assert((a + b).drop_last() =~= a + b.drop_last());
        assert((a + b).last() == b.last());
    } else {
        assert(a + b =~= a);
    }
}

proof fn lemma_bytes_count(s: Text)
    ensures
        syntax::bytes_of(s) >= 0,
    decreases s.len(),
{
    if s.len() > 0 {
        lemma_bytes_count(s.drop_last());
    }
}

/// One of some paths begins with this name.
pub open spec fn begins_some(exprs: Seq<Text>, root: Text) -> bool {
    exists|k: int| 0 <= k < exprs.len() && text::head_of(#[trigger] exprs[k], '.') == root
}

/// A first name that no service declares comes along just where a path begins
/// with it.
pub proof fn law_which_roots_come_along(exprs: Seq<Text>, declared: Seq<Text>, root: Text)
    ensures
        emit::extra_roots(exprs, declared).contains(root) <==> root.len() > 0 && !declared.contains(
            root,
        ) && begins_some(exprs, root),
    decreases exprs.len(),
{
    let all = emit::extra_roots(exprs, declared);
    if exprs.len() > 0 {
        let rest = exprs.drop_last();
        law_which_roots_come_along(rest, declared, root);
        let some = emit::extra_roots(rest, declared);
        let own = text::head_of(exprs.last(), '.');
        assert(exprs[exprs.len() - 1] == exprs.last());
        if begins_some(rest, root) {
            let k = choose|k: int|
                0 <= k < rest.len() && text::head_of(#[trigger] rest[k], '.') == root;
            assert(exprs[k] == rest[k]);
        }
        if begins_some(exprs, root) && own != root {
            let k = choose|k: int|
                0 <= k < exprs.len() && text::head_of(#[trigger] exprs[k], '.') == root;
            assert(rest[k] == exprs[k]);
        }
        if all == some.push(own) {
            assert(all[all.len() - 1] == own);
            if some.contains(root) {
                let k = choose|k: int| 0 <= k < some.len() && some[k] == root;
                assert(all[k] == root);
            }
            if all.contains(root) && own != root {
                let k = choose|k: int| 0 <= k < all.len() && all[k] == root;
                assert(some[k] == root);
            }
        }
    }
}

/// First names come along in the order in which paths begin with them: one that
/// is new stands behind those before it, and one that is not adds nothing.
pub proof fn law_roots_in_order(exprs: Seq<Text>, expr: Text, declared: Seq<Text>)
    ensures
        ({
            let root = text::head_of(expr, '.');
            let before = emit::extra_roots(exprs, declared);
            let new = root.len() > 0 && !declared.contains(root) && !begins_some(exprs, root);
            &&& new ==> emit::extra_roots(exprs.push(expr), declared) == before.push(root)
            &&& !new ==> emit::extra_roots(exprs.push(expr), declared) == before
        }),
{
    let root = text::head_of(expr, '.');
    law_which_roots_come_along(exprs, declared, root);
    assert(exprs.push(expr).drop_last() =~= exprs);
    assert(exprs.push(expr).last() == expr);
}

/// The local types are gone through in order. One is taken where a member, or a
/// type that was taken before it, names it, and is left otherwise.
pub proof fn law_local_types_in_turn(
    types: Seq<LocalTypeView>,
    t: LocalTypeView,
    target: Seq<Text>,
)
    ensures
        ({
            let (taken, left) = emit::swept(types, target);
            let named = (exists|k: int|
                0 <= k < target.len() && emit::names_word(#[trigger] target[k], t.name)) || (
            exists|k: int|
                0 <= k < taken.len() && emit::names_word((#[trigger] taken[k]).text, t.name));
            &&& named ==> emit::swept(types.push(t), target) == (taken.push(t), left)
            &&& !named ==> emit::swept(types.push(t), target) == (taken, left.push(t))
        }),
{
    let (taken, left) = emit::swept(types, target);
    assert(types.push(t).drop_last() =~= types);
    assert(types.push(t).last() == t);
    let all = target + emit::texts_of(taken);
    if emit::cited(all, t.name) {
        let k = choose|k: int| 0 <= k < all.len() && emit::names_word(#[trigger] all[k], t.name);
        if k < target.len() {
            assert(emit::names_word(target[k], t.name));
        } else {
            assert(all[k] == taken[k - target.len()].text);
            assert(emit::names_word(taken[k - target.len()].text, t.name));
        }
    } else {
        assert forall|k: int| 0 <= k < target.len() implies !emit::names_word(
            #[trigger] target[k],
            t.name,
        ) by {
            assert(all[k] == target[k]);
        }
        assert forall|k: int| 0 <= k < taken.len() implies !emit::names_word(
            (#[trigger] taken[k]).text,
            t.name,
        ) by {
            assert(all[target.len() + k] == taken[k].text);
        }
    }
}

/// The local types that members need are those that a first pass takes, then
/// those that are needed by what these are as well.
pub proof fn law_local_types_pass_by_pass(types: Seq<LocalTypeView>, target: Seq<Text>)
    ensures
        ({
            let (taken, left) = emit::swept(types, target);
            let more = taken.map_values(|t: LocalTypeView| t.text);
            &&& taken.len() == 0 ==> emit::needed(types, target).len() == 0
            &&& taken.len() > 0 ==> emit::needed(types, target) == taken + emit::needed(
                left,
                target + more,
            )
        }),
{
    let (taken, left) = emit::swept(types, target);
    assert(emit::texts_of(taken) =~= taken.map_values(|t: LocalTypeView| t.text));
}

} // verus!
