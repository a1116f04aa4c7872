//! Laws of texts, of tables, and of objects.

use vstd::prelude::*;

use crate::json::{self, Tree};
use crate::laws::leaf::{self, is_space};
use crate::table::{self, Rows};
use crate::text::{self, Text};

verus! {

/// Nothing but one character.
pub open spec fn only(s: Text, c: char) -> bool {
    forall|i: int| 0 <= i < s.len() ==> #[trigger] s[i] == c
}

/// What is taken off the end of a text is as many of the character as there are.
pub proof fn law_taken_off_the_end(a: Text, b: Text, c: char)
    requires
        only(b, c),
        a.len() == 0 || a.last() != c,
    ensures
        text::trim_end_of(a + b, c) == a,
    decreases b.len(),
{
    let s = a + b;
    if b.len() > 0 {
        law_taken_off_the_end(a, b.drop_last(), c);
        assert(s.drop_last() =~= a + b.drop_last());
        assert(s.last() == b.last());
        assert(b[b.len() - 1] == c);
    } else {
        assert(s =~= a);
    }
}

/// A text with one character replaced by another has its length, and has every
/// other character where it was.
pub proof fn law_replaced(s: Text, from: char, to: char)
    ensures
        text::replaced(s, from, to).len() == s.len(),
        forall|i: int|
            0 <= i < s.len() && s[i] != from ==> (#[trigger] text::replaced(s, from, to)[i])
                == s[i],
        forall|i: int|
            0 <= i < s.len() && s[i] == from ==> (#[trigger] text::replaced(s, from, to)[i]) == to,
{
}

/// A path is written with `/` for every backslash, and is otherwise as it was.
pub proof fn law_slashes(s: Text)
    ensures
        !text::slashes(s).contains('\\'),
        !s.contains('\\') ==> text::slashes(s) == s,
        text::slashes(s).len() == s.len(),
        forall|i: int|
            0 <= i < s.len() ==> (#[trigger] text::slashes(s)[i]) == s[i] || s[i] == '\\'
                && text::slashes(s)[i] == '/',
{
    if !s.contains('\\') {
        assert(text::slashes(s) =~= s) by {
            assert forall|i: int| 0 <= i < s.len() implies text::slashes(s)[i] == s[i] by {
                if s[i] == '\\' {
                    assert(s.contains('\\'));
                }
            }
        }
    }
}

/// The first piece of a text is what stands before its first separator.
pub proof fn law_head(a: Text, sep: char, b: Text)
    requires
        !a.contains(sep),
    ensures
        text::head_of(a, sep) == a,
        text::head_of(a.push(sep) + b, sep) == a,
{
    assert forall|i: int| 0 <= i < a.len() implies a[i] != sep by {
        if a[i] == sep {
            assert(a.contains(sep));
        }
    }
    text::lemma_split_plain(a, sep);
    lemma_split_head(a, sep, b);
}

proof fn lemma_split_head(a: Text, sep: char, b: Text)
    requires
        text::split(a, sep) == seq![a],
    ensures
        text::split(a.push(sep) + b, sep) == seq![a] + text::split(b, sep),
    decreases b.len(),
{
    let s = a.push(sep) + b;
    if b.len() == 0 {
        assert(s =~= a.push(sep));
        assert(s.drop_last() =~= a);
        assert(text::split(s, sep) =~= seq![a] + text::split(b, sep));
    } else {
        let c = b.drop_last();
        lemma_split_head(a, sep, c);
        text::lemma_split_nonempty(c, sep);
        assert(s.drop_last() =~= a.push(sep) + c);
        assert(s.last() == b.last());
        assert(text::split(s, sep) =~= seq![a] + text::split(b, sep));
    }
}

/// The lines of a text: what a line feed ends is a line, without a carriage
/// return before it. What comes behind goes on so. Nothing is no line.
pub proof fn law_lines(line: Text, rest: Text)
    requires
        !line.contains('\n'),
    ensures
        text::lines(Seq::empty()) == Seq::<Text>::empty(),
        line.len() > 0 ==> text::lines(line) == seq![line],
        text::lines(line.push('\r').push('\n') + rest) == seq![line] + text::lines(rest),
        line.len() == 0 || line.last() != '\r' ==> text::lines(line.push('\n') + rest) == seq![line]
            + text::lines(rest),
{
    assert forall|i: int| 0 <= i < line.len() implies line[i] != '\n' by {
        if line[i] == '\n' {
            assert(line.contains('\n'));
        }
    }
    let back = line.push('\r');
    text::lemma_split_plain(line, '\n');
    text::lemma_split_plain(back, '\n');
    text::lemma_split_nonempty(rest, '\n');
    lemma_split_head(line, '\n', rest);
    lemma_split_head(back, '\n', rest);
    assert(text::lines(Seq::empty()) =~= Seq::<Text>::empty());
    assert(line.len() > 0 ==> text::lines(line) =~= seq![line]);
    let p = text::split(rest, '\n');
    let f = |l: Text| text::without_return(l);
    let q = text::split(line.push('\n') + rest, '\n');
    assert(q.drop_last() =~= seq![line] + p.drop_last());
    assert(q.last() == p.last());
    let r = text::split(back.push('\n') + rest, '\n');
    assert(r.drop_last() =~= seq![back] + p.drop_last());
    assert(r.last() == p.last());
    assert(back.drop_last() =~= line);
    assert(text::lines(back.push('\n') + rest) =~= seq![line] + text::lines(rest));
    if line.len() == 0 || line.last() != '\r' {
        assert(text::lines(line.push('\n') + rest) =~= seq![line] + text::lines(rest));
    }
}

/// Texts are in the order of the first character in which they differ, and a
/// text comes before all that go on behind it.
pub proof fn law_order(common: Text, x: char, a: Text, y: char, b: Text)
    ensures
        x < y ==> text::before(common.push(x) + a, common.push(y) + b),
        x < y ==> !text::before(common.push(y) + b, common.push(x) + a),
        text::before(common, common.push(x) + a),
        !text::before(common.push(x) + a, common),
        !text::before(common, common),
    decreases common.len(),
{
    let s = common.push(x) + a;
    let t = common.push(y) + b;
    if common.len() > 0 {
        let rest = common.drop_first();
        law_order(rest, x, a, y, b);
        assert(s.drop_first() =~= rest.push(x) + a);
        assert(t.drop_first() =~= rest.push(y) + b);
    }
}

/// What stands before the last separator is there just where there is one.
pub proof fn law_before_last(a: Text, sep: char, b: Text)
    requires
        !b.contains(sep),
    ensures
        text::before_last(a.push(sep) + b, sep) == Some(a),
        text::before_last(b, sep) is None,
    decreases b.len(),
{
    crate::laws::driver::lemma_before_last(a, sep, b);
    if b.len() > 0 {
        let c = b.drop_last();
        assert(b.contains(b.last()));
        assert(!c.contains(sep)) by {
            if c.contains(sep) {
                let i = choose|i: int| 0 <= i < c.len() && c[i] == sep;
                assert(b[i] == sep);
            }
        }
        law_before_last(a, sep, c);
    }
}

/// A character takes as many bytes as its number needs in UTF-8.
pub proof fn law_width(c: char)
    ensures
        1 <= text::width(c) <= 4,
        text::width(c) > 1 <==> (c as u32) >= 0x80,
        text::width(c) > 2 <==> (c as u32) >= 0x800,
        text::width(c) > 3 <==> (c as u32) >= 0x10000,
{
}

/// A text without an end that it has; a text that has no such end is refused.
pub proof fn law_without_suffix(a: Text, p: Text, s: Text)
    ensures
        text::without_suffix(a + p, p) == Some(a),
        text::without_suffix(s, p) matches Some(t) ==> s == t + p,
{
    let all = a + p;
    assert(all.subrange(all.len() - p.len(), all.len() as int) =~= p);
    assert(all.take(all.len() - p.len()) =~= a);
    if text::without_suffix(s, p) is Some {
        assert(s =~= s.take(s.len() - p.len()) + s.subrange(s.len() - p.len(), s.len() as int));
    }
}

/// A member of an object is the first that is under its key, and there is one
/// just where the key is there.
pub proof fn law_member(before: Seq<(Text, Tree)>, key: Text, value: Tree, after: Seq<(Text, Tree)>)
    requires
        lacks(before, key),
    ensures
        json::member(before, key) is None,
        json::place(before, key) == before.len(),
        json::member(before + seq![(key, value)] + after, key) == Some(value),
        json::place(before + seq![(key, value)] + after, key) == before.len(),
    decreases before.len(),
{
    let all = before + seq![(key, value)] + after;
    if before.len() > 0 {
        let rest = before.drop_first();
        assert forall|i: int| 0 <= i < rest.len() implies (#[trigger] rest[i]).0 != key by {
            assert(rest[i] == before[i + 1]);
        }
        law_member(rest, key, value, after);
        assert(all.drop_first() =~= rest + seq![(key, value)] + after);
        assert(all[0] == before[0]);
        assert(before[0].0 != key);
    } else {
        assert(all[0] == (key, value));
    }
}

/// No member is under a key.
pub open spec fn lacks(members: Seq<(Text, Tree)>, key: Text) -> bool {
    forall|i: int| 0 <= i < members.len() ==> (#[trigger] members[i]).0 != key
}

/// The text under a key is there just where the member is a text.
pub proof fn law_text_member(members: Seq<(Text, Tree)>, key: Text, t: Text)
    ensures
        json::text_member(members, key) == Some(t) <==> json::member(members, key) == Some(
            Tree::Text(t),
        ),
{
}

/// The rows that are kept are those whose key is among some, in order.
pub proof fn law_kept<V>(r: Rows<V>, among: Seq<Text>)
    ensures
        table::kept(r, among) == r.filter(|e: (Text, V)| among.contains(e.0)),
    decreases r.len(),
{
    reveal(Seq::filter);
    if r.len() > 0 {
        law_kept(r.drop_last(), among);
    }
}

/// White space goes at both ends of a text, and nowhere else.
pub proof fn law_trim(before: Text, core: Text, after: Text)
    requires
        is_space(before),
        is_space(after),
        core.len() > 0,
        !text::is_white(core[0]),
        !text::is_white(core.last()),
    ensures
        text::trim(before + core + after) == core,
        text::trim(before) == Seq::<char>::empty(),
{
    assert(before + core + after =~= before + (core + after));
    leaf::lemma_trim_start(before, core + after);
    leaf::lemma_trim_end(core, after);
    let none = Seq::<char>::empty();
    leaf::lemma_trim_start(before, none);
    assert(before + none =~= before);
    assert(text::trim_end(none) == none);
}

} // verus!
