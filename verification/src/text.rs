//! Text as a sequence of characters: the searches, cuts and joins that the
//! generator is made of.

use vstd::prelude::*;

verus! {

/// What a string holds.
pub type Text = Seq<char>;

/// `String::push`: appends one character.
pub assume_specification[ String::push ](s: &mut String, c: char)
    ensures
        final(s)@ == old(s)@.push(c),
;

/// The characters of a string.
pub fn chars_of(s: &str) -> (r: Vec<char>)
    ensures
        r@ == s@,
{
    let mut out: Vec<char> = Vec::new();
    for c in it: s.chars()
        invariant
            out@ == s@.take(it.index() as int),
            it.seq() == s@,
    {
        proof {
            assert(s@.take(it.index() + 1) =~= s@.take(it.index() as int).push(s@[it.index() as int]));
        }
        out.push(c);
    }
    assert(s@.take(s@.len() as int) =~= s@);
    out
}

/// The string that holds the characters `from..to`.
pub fn text_of(v: &Vec<char>, from: usize, to: usize) -> (r: String)
    requires
        from <= to <= v@.len(),
    ensures
        r@ == v@.subrange(from as int, to as int),
{
    let mut out = String::new();
    let mut i: usize = from;
    while i < to
        invariant
            from <= i <= to <= v@.len(),
            out@ =~= v@.subrange(from as int, i as int),
        decreases to - i,
    {
        out.push(v[i]);
        i = i + 1;
    }
    out
}

/// Whether two strings hold the same text.
pub fn same(a: &str, b: &str) -> (r: bool)
    ensures
        r == (a@ == b@),
{
    a.to_owned() == b.to_owned()
}

/// A string of its own with the same text.
pub fn copy(s: &str) -> (r: String)
    ensures
        r@ == s@,
{
    s.to_owned()
}

/// Appends to a list.
pub fn push<T: DeepView>(list: &mut Vec<T>, item: T)
    ensures
        final(list).deep_view() == old(list).deep_view().push(item.deep_view()),
{
    let ghost was = list.deep_view();
    let ghost new = item.deep_view();
    list.push(item);
    assert(list.deep_view() =~= was.push(new));
}

/// A list of its own with the same texts.
pub fn copy_all(list: &Vec<String>) -> (r: Vec<String>)
    ensures
        r.deep_view() == list.deep_view(),
{
    let mut out: Vec<String> = Vec::new();
    let mut i: usize = 0;
    while i < list.len()
        invariant
            i <= list@.len(),
            out.deep_view() =~= list.deep_view().take(i as int),
        decreases list.len() - i,
    {
        push(&mut out, copy(list[i].as_str()));
        i = i + 1;
    }
    assert(list.deep_view().take(i as int) =~= list.deep_view());
    out
}

/// Whether a list holds a text.
pub fn holds(list: &Vec<String>, t: &str) -> (r: bool)
    ensures
        r == list.deep_view().contains(t@),
{
    let mut i: usize = 0;
    while i < list.len()
        invariant
            i <= list@.len(),
            forall|j: int| 0 <= j < i ==> #[trigger] list.deep_view()[j] != t@,
        decreases list.len() - i,
    {
        if same(list[i].as_str(), t) {
            assert(list.deep_view()[i as int] == t@);
            return true;
        }
        i = i + 1;
    }
    false
}

/// `p` stands in `s` at position `i`.
pub open spec fn occurs_at(s: Text, p: Text, i: int) -> bool {
    &&& 0 <= i
    &&& i + p.len() <= s.len()
    &&& s.subrange(i, i + p.len()) == p
}

/// Whether `p` stands in `s` at position `i`.
pub fn stands_at(s: &Vec<char>, p: &Vec<char>, i: usize) -> (r: bool)
    requires
        i <= s@.len(),
    ensures
        r == occurs_at(s@, p@, i as int),
{
    if p.len() > s.len() - i {
        return false;
    }
    let n: usize = s.len();
    let mut k: usize = 0;
    while k < p.len()
        invariant
            n == s@.len(),
            i + p@.len() <= n,
            k <= p@.len(),
            forall|j: int| 0 <= j < k ==> s@[i + j] == p@[j],
        decreases p.len() - k,
    {
        if s[i + k] != p[k] {
            assert(s@.subrange(i as int, i + p@.len())[k as int] != p@[k as int]);
            return false;
        }
        k = k + 1;
    }
    assert(s@.subrange(i as int, i + p@.len()) =~= p@);
    true
}

/// The first position from `from` on at which `p` stands in `s`.
pub fn find(s: &Vec<char>, p: &Vec<char>, from: usize) -> (r: Option<usize>)
    requires
        from <= s@.len(),
    ensures
        match r {
            Some(i) => from <= i <= s@.len() && occurs_at(s@, p@, i as int) && forall|j: int|
                from <= j < i ==> !occurs_at(s@, p@, j),
            None => forall|j: int| from <= j ==> !occurs_at(s@, p@, j),
        },
        first_at(s@, p@, from as int) == match r {
            Some(i) => Some(i as int),
            None => None,
        },
{
    let mut i: usize = from;
    while i < s.len()
        invariant
            from <= i <= s@.len(),
            forall|j: int| from <= j < i ==> !occurs_at(s@, p@, j),
        decreases s.len() - i,
    {
        if stands_at(s, p, i) {
            proof {
                lemma_first_at(s@, p@, from as int, Some(i as int));
            }
            return Some(i);
        }
        i = i + 1;
    }
    if stands_at(s, p, i) {
        proof {
            lemma_first_at(s@, p@, from as int, Some(i as int));
        }
        Some(i)
    } else {
        proof {
            lemma_first_at(s@, p@, from as int, None);
        }
        None
    }
}

/// The first position from `from` on at which `p` stands in `s`.
pub open spec fn first_at(s: Text, p: Text, from: int) -> Option<int>
    decreases s.len() - from + 1,
{
    if from > s.len() {
        None
    } else if occurs_at(s, p, from) {
        Some(from)
    } else {
        first_at(s, p, from + 1)
    }
}

proof fn lemma_first_at(s: Text, p: Text, from: int, at: Option<int>)
    requires
        0 <= from,
        match at {
            Some(i) => from <= i && occurs_at(s, p, i) && forall|j: int|
                from <= j < i ==> !occurs_at(s, p, j),
            None => forall|j: int| from <= j ==> !occurs_at(s, p, j),
        },
    ensures
        first_at(s, p, from) == at,
    decreases s.len() - from + 1,
{
    if from <= s.len() && !occurs_at(s, p, from) {
        lemma_first_at(s, p, from + 1, at);
    }
}

/// White space: the characters with the Unicode property `White_Space`.
pub open spec fn is_white(c: char) -> bool {
    ||| '\u{9}' <= c <= '\u{d}'
    ||| c == ' '
    ||| c == '\u{85}'
    ||| c == '\u{a0}'
    ||| c == '\u{1680}'
    ||| '\u{2000}' <= c <= '\u{200a}'
    ||| c == '\u{2028}'
    ||| c == '\u{2029}'
    ||| c == '\u{202f}'
    ||| c == '\u{205f}'
    ||| c == '\u{3000}'
}

/// Whether a character is white space.
pub fn white(c: char) -> (r: bool)
    ensures
        r == is_white(c),
{
    ('\u{9}' <= c && c <= '\u{d}') || c == ' ' || c == '\u{85}' || c == '\u{a0}' || c == '\u{1680}'
        || ('\u{2000}' <= c && c <= '\u{200a}') || c == '\u{2028}' || c == '\u{2029}' || c
        == '\u{202f}' || c == '\u{205f}' || c == '\u{3000}'
}

/// `s` without the white space it begins with.
pub open spec fn trim_start(s: Text) -> Text
    decreases s.len(),
{
    if s.len() > 0 && is_white(s[0]) {
        trim_start(s.drop_first())
    } else {
        s
    }
}

/// `s` without the white space it ends with.
pub open spec fn trim_end(s: Text) -> Text
    decreases s.len(),
{
    if s.len() > 0 && is_white(s.last()) {
        trim_end(s.drop_last())
    } else {
        s
    }
}

/// `s` without the white space at either end.
pub open spec fn trim(s: Text) -> Text {
    trim_end(trim_start(s))
}

/// The first position from `from` on that holds no white space, or the end.
pub fn skip_white(s: &Vec<char>, from: usize) -> (r: usize)
    requires
        from <= s@.len(),
    ensures
        from <= r <= s@.len(),
        s@.skip(r as int) == trim_start(s@.skip(from as int)),
        r < s@.len() ==> !is_white(s@[r as int]),
{
    let mut i: usize = from;
    while i < s.len() && white(s[i])
        invariant
            from <= i <= s@.len(),
            trim_start(s@.skip(i as int)) == trim_start(s@.skip(from as int)),
        decreases s.len() - i,
    {
        assert(s@.skip(i as int).drop_first() =~= s@.skip(i + 1));
        i = i + 1;
    }
    i
}

/// The end of `s` without the white space it ends with, not before `from`.
pub fn end_of_text(s: &Vec<char>, from: usize) -> (r: usize)
    requires
        from <= s@.len(),
    ensures
        from <= r <= s@.len(),
        s@.subrange(from as int, r as int) == trim_end(s@.skip(from as int)),
{
    let mut i: usize = s.len();
    assert(s@.subrange(from as int, i as int) =~= s@.skip(from as int));
    while i > from && white(s[i - 1])
        invariant
            from <= i <= s@.len(),
            trim_end(s@.subrange(from as int, i as int)) == trim_end(s@.skip(from as int)),
        decreases i,
    {
        assert(s@.subrange(from as int, i as int).drop_last() =~= s@.subrange(from as int, i - 1));
        i = i - 1;
    }
    i
}

/// Whether `s` begins with `p`.
pub fn starts_with(s: &str, p: &str) -> (r: bool)
    ensures
        r == p@.is_prefix_of(s@),
{
    let a = chars_of(s);
    let b = chars_of(p);
    let r = stands_at(&a, &b, 0);
    proof {
        if p@.len() <= s@.len() {
            assert(s@.subrange(0, p@.len() as int) =~= s@.take(p@.len() as int));
            if r {
                assert(p@.is_prefix_of(s@));
            } else if p@.is_prefix_of(s@) {
                assert(s@.subrange(0, p@.len() as int) =~= p@);
            }
        }
    }
    r
}

/// A text begins with one character where that is its first.
pub proof fn lemma_one_prefix(c: char, s: Text)
    ensures
        seq![c].is_prefix_of(s) <==> s.len() > 0 && s[0] == c,
{
    if s.len() > 0 {
        assert(s.subrange(0, 1) =~= seq![s[0]]);
        if seq![c].is_prefix_of(s) {
            assert(seq![c][0] == s.subrange(0, 1)[0]);
        }
    }
}

/// `s` without `p` at its end, where it ends with `p`.
pub open spec fn without_suffix(s: Text, p: Text) -> Option<Text> {
    if p.is_suffix_of(s) {
        Some(s.take(s.len() - p.len()))
    } else {
        None
    }
}

/// Takes `p` off the end of `s`.
pub fn strip_suffix(s: &str, p: &str) -> (r: Option<String>)
    ensures
        r.deep_view() == without_suffix(s@, p@),
{
    let a = chars_of(s);
    let b = chars_of(p);
    if b.len() > a.len() {
        return None;
    }
    let cut: usize = a.len() - b.len();
    if stands_at(&a, &b, cut) {
        proof {
            assert(s@.subrange(cut as int, s@.len() as int) =~= s@.skip(cut as int));
            assert(s@.subrange(0, cut as int) =~= s@.take(cut as int));
            assert(p@.is_suffix_of(s@));
        }
        Some(text_of(&a, 0, cut))
    } else {
        proof {
            if p@.is_suffix_of(s@) {
                assert(s@.subrange(cut as int, cut + p@.len()) =~= p@);
            }
        }
        None
    }
}

/// Whether `s` ends with `p`.
pub fn ends_with(s: &str, p: &str) -> (r: bool)
    ensures
        r == p@.is_suffix_of(s@),
{
    strip_suffix(s, p).is_some()
}

/// `s` with `from` replaced by `to` throughout.
pub open spec fn replaced(s: Text, from: char, to: char) -> Text {
    s.map_values(|c: char| if c == from { to } else { c })
}

/// `s` with forward slashes for backslashes.
pub open spec fn slashes(s: Text) -> Text {
    replaced(s, '\\', '/')
}

/// Replaces one character by another throughout.
pub fn replace(s: &str, from: char, to: char) -> (r: String)
    ensures
        r@ == replaced(s@, from, to),
{
    let v = chars_of(s);
    let mut out = String::new();
    let mut i: usize = 0;
    while i < v.len()
        invariant
            v@ == s@,
            i <= v@.len(),
            out@ =~= replaced(s@, from, to).take(i as int),
        decreases v.len() - i,
    {
        out.push(if v[i] == from { to } else { v[i] });
        i = i + 1;
    }
    assert(replaced(s@, from, to).take(s@.len() as int) =~= replaced(s@, from, to));
    out
}

/// `s` without the `c`s it ends with.
pub open spec fn trim_end_of(s: Text, c: char) -> Text
    decreases s.len(),
{
    if s.len() > 0 && s.last() == c {
        trim_end_of(s.drop_last(), c)
    } else {
        s
    }
}

/// Takes every `c` off the end of `s`.
pub fn trim_end_matches(s: &str, c: char) -> (r: String)
    ensures
        r@ == trim_end_of(s@, c),
{
    let v = chars_of(s);
    let mut i: usize = v.len();
    assert(s@.take(i as int) =~= s@);
    while i > 0 && v[i - 1] == c
        invariant
            v@ == s@,
            i <= v@.len(),
            trim_end_of(s@.take(i as int), c) == trim_end_of(s@, c),
        decreases i,
    {
        assert(s@.take(i as int).drop_last() =~= s@.take(i - 1));
        i = i - 1;
    }
    assert(s@.subrange(0, i as int) =~= s@.take(i as int));
    text_of(&v, 0, i)
}

/// The pieces of `s` between the `sep`s: one more than there are `sep`s.
pub open spec fn split(s: Text, sep: char) -> Seq<Text>
    decreases s.len(),
{
    if s.len() == 0 {
        seq![Seq::empty()]
    } else {
        let before = split(s.drop_last(), sep);
        if s.last() == sep {
            before.push(Seq::empty())
        } else {
            before.drop_last().push(before.last().push(s.last()))
        }
    }
}

/// There is always at least one piece.
pub proof fn lemma_split_nonempty(s: Text, sep: char)
    ensures
        split(s, sep).len() >= 1,
    decreases s.len(),
{
    if s.len() > 0 {
        lemma_split_nonempty(s.drop_last(), sep);
    }
}

/// A text without `sep` is one piece.
pub proof fn lemma_split_plain(s: Text, sep: char)
    requires
        forall|i: int| 0 <= i < s.len() ==> s[i] != sep,
    ensures
        split(s, sep) == seq![s],
    decreases s.len(),
{
    if s.len() > 0 {
        lemma_split_plain(s.drop_last(), sep);
        assert(s.drop_last().push(s.last()) =~= s);
        assert(split(s, sep) =~= seq![s]);
    } else {
        assert(s =~= Seq::empty());
    }
}

/// The pieces of two texts with `sep` between them.
pub proof fn lemma_split_cat(a: Text, sep: char, b: Text)
    ensures
        split(a.push(sep) + b, sep) == split(a, sep) + split(b, sep),
    decreases b.len(),
{
    let s = a.push(sep) + b;
    if b.len() == 0 {
        assert(s =~= a.push(sep));
        assert(s.drop_last() =~= a);
        assert(split(s, sep) =~= split(a, sep) + split(b, sep));
    } else {
        lemma_split_cat(a, sep, b.drop_last());
        lemma_split_nonempty(b.drop_last(), sep);
        assert(s.drop_last() =~= a.push(sep) + b.drop_last());
        assert(split(s, sep) =~= split(a, sep) + split(b, sep));
    }
}

/// No piece holds what the text is cut at.
pub proof fn lemma_split_clean(s: Text, sep: char)
    ensures
        forall|i: int|
            0 <= i < split(s, sep).len() ==> !(#[trigger] split(s, sep)[i]).contains(sep),
    decreases s.len(),
{
    let all = split(s, sep);
    if s.len() > 0 {
        lemma_split_clean(s.drop_last(), sep);
        lemma_split_nonempty(s.drop_last(), sep);
        let before = split(s.drop_last(), sep);
        assert forall|i: int| 0 <= i < all.len() implies !(#[trigger] all[i]).contains(sep) by {
            if s.last() == sep {
                if i < before.len() {
                    assert(all[i] == before[i]);
                }
            } else if i < before.len() - 1 {
                assert(all[i] == before[i]);
            } else {
                assert(!before[i].contains(sep));
                let piece = before[i];
                assert(all[i] == piece.push(s.last()));
                if all[i].contains(sep) {
                    let k = choose|k: int| 0 <= k < all[i].len() && all[i][k] == sep;
                    assert(piece[k] == sep);
                    assert(piece.contains(sep));
                }
            }
        }
    }
}

/// Cuts `s` at every `sep`.
pub fn pieces(s: &str, sep: char) -> (r: Vec<String>)
    ensures
        r.deep_view() == split(s@, sep),
{
    let v = chars_of(s);
    let mut out: Vec<String> = Vec::new();
    let mut cur = String::new();
    let mut i: usize = 0;
    assert(s@.take(0) =~= Seq::empty());
    assert(out.deep_view().push(cur@) =~= split(s@.take(0), sep));
    while i < v.len()
        invariant
            v@ == s@,
            i <= v@.len(),
            out.deep_view().push(cur@) == split(s@.take(i as int), sep),
        decreases v.len() - i,
    {
        let c = v[i];
        proof {
            assert(s@.take(i + 1).drop_last() =~= s@.take(i as int));
            assert(out.deep_view().push(cur@).drop_last() =~= out.deep_view());
        }
        if c == sep {
            push(&mut out, cur);
            cur = String::new();
        } else {
            cur.push(c);
        }
        i = i + 1;
    }
    assert(s@.take(s@.len() as int) =~= s@);
    push(&mut out, cur);
    out
}

/// The pieces, one after the other, with `sep` between them.
pub open spec fn joined(parts: Seq<Text>, sep: Text) -> Text
    decreases parts.len(),
{
    if parts.len() <= 1 {
        if parts.len() == 1 {
            parts[0]
        } else {
            Seq::empty()
        }
    } else {
        joined(parts.drop_last(), sep) + sep + parts.last()
    }
}

/// Puts the pieces together with `sep` between them.
pub fn join(parts: &Vec<String>, sep: &str) -> (r: String)
    ensures
        r@ == joined(parts.deep_view(), sep@),
{
    let mut out = String::new();
    let mut i: usize = 0;
    let ghost all = parts.deep_view();
    assert(all.take(0) =~= Seq::empty());
    while i < parts.len()
        invariant
            all == parts.deep_view(),
            i <= parts@.len(),
            out@ == joined(all.take(i as int), sep@),
        decreases parts.len() - i,
    {
        assert(all.take(i + 1).drop_last() =~= all.take(i as int));
        if i > 0 {
            out.append(sep);
        } else {
            assert(Seq::<char>::empty() + all[0] =~= all[0]);
        }
        out.append(parts[i].as_str());
        i = i + 1;
    }
    assert(all.take(all.len() as int) =~= all);
    out
}

/// Keeps the pieces that are not empty.
pub fn nonempty(parts: Vec<String>) -> (r: Vec<String>)
    ensures
        r.deep_view() == parts.deep_view().filter(|p: Text| p.len() > 0),
{
    let mut out: Vec<String> = Vec::new();
    let mut i: usize = 0;
    let ghost all = parts.deep_view();
    let ghost keep = |p: Text| p.len() > 0;
    assert(all.take(0).filter(keep) =~= Seq::empty()) by {
        reveal(Seq::filter);
    }
    while i < parts.len()
        invariant
            all == parts.deep_view(),
            keep == (|p: Text| p.len() > 0),
            i <= parts@.len(),
            out.deep_view() == all.take(i as int).filter(keep),
        decreases parts.len() - i,
    {
        proof {
            all.take(i as int).lemma_filter_push(all[i as int], keep);
            assert(all.take(i as int).push(all[i as int]) =~= all.take(i + 1));
        }
        if !parts[i].as_str().is_empty() {
            push(&mut out, copy(parts[i].as_str()));
        }
        i = i + 1;
    }
    assert(all.take(i as int) =~= all);
    out
}

/// Appends the texts of one list to another.
pub fn append(list: &mut Vec<String>, more: &Vec<String>)
    ensures
        final(list).deep_view() == old(list).deep_view() + more.deep_view(),
{
    let mut i: usize = 0;
    let ghost was = list.deep_view();
    while i < more.len()
        invariant
            i <= more@.len(),
            list.deep_view() =~= was + more.deep_view().take(i as int),
        decreases more.len() - i,
    {
        push(list, copy(more[i].as_str()));
        i = i + 1;
    }
    assert(more.deep_view().take(i as int) =~= more.deep_view());
}

/// Whether `a` has more characters than `b`.
pub fn longer(a: &str, b: &str) -> (r: bool)
    ensures
        r == (a@.len() > b@.len()),
{
    chars_of(a).len() > chars_of(b).len()
}

/// What comes after the text that `s` begins with.
pub fn after(s: &str, p: &str) -> (r: String)
    requires
        p@.len() <= s@.len(),
    ensures
        r@ == s@.skip(p@.len() as int),
{
    let v = chars_of(s);
    let from: usize = chars_of(p).len();
    let r = text_of(&v, from, v.len());
    assert(r@ =~= s@.skip(p@.len() as int));
    r
}

/// Cutting at `sep` and joining with `sep` gives the text back.
pub proof fn law_split_join(s: Text, sep: char)
    ensures
        joined(split(s, sep), seq![sep]) == s,
    decreases s.len(),
{
    if s.len() > 0 {
        let before = split(s.drop_last(), sep);
        lemma_split_nonempty(s.drop_last(), sep);
        law_split_join(s.drop_last(), sep);
        if s.last() == sep {
            assert(before.push(Seq::empty()).drop_last() =~= before);
            assert(s.drop_last() + seq![sep] + Seq::<char>::empty() =~= s);
        } else {
            let now = before.drop_last().push(before.last().push(s.last()));
            if before.len() > 1 {
                assert(now.drop_last() =~= before.drop_last());
                assert(joined(before.drop_last(), seq![sep]) + seq![sep] + before.last().push(
                    s.last(),
                ) =~= (joined(before.drop_last(), seq![sep]) + seq![sep] + before.last()).push(
                    s.last(),
                ));
            }
            assert(s.drop_last().push(s.last()) =~= s);
        }
    }
}

/// Joining with `sep` what holds no `sep` and cutting at it gives the pieces back.
pub proof fn law_join_split(parts: Seq<Text>, sep: char)
    requires
        parts.len() > 0,
        forall|i: int| 0 <= i < parts.len() ==> !(#[trigger] parts[i]).contains(sep),
    ensures
        split(joined(parts, seq![sep]), sep) == parts,
    decreases parts.len(),
{
    let last = parts.last();
    assert(!parts[parts.len() - 1].contains(sep));
    assert forall|i: int| 0 <= i < last.len() implies last[i] != sep by {
        if last[i] == sep {
            assert(last.contains(sep));
        }
    }
    lemma_split_plain(last, sep);
    if parts.len() == 1 {
        assert(parts =~= seq![last]);
    } else {
        let some = parts.drop_last();
        assert forall|i: int| 0 <= i < some.len() implies !(#[trigger] some[i]).contains(sep) by {
            assert(!parts[i].contains(sep));
        }
        law_join_split(some, sep);
        let lead = joined(some, seq![sep]);
        lemma_split_cat(lead, sep, last);
        assert(lead + seq![sep] + last =~= lead.push(sep) + last);
        assert(some + seq![last] =~= parts);
    }
}

/// The text before the first `sep`, or all of it.
pub open spec fn head_of(s: Text, sep: char) -> Text {
    split(s, sep)[0]
}

/// The text before the first `sep`.
pub fn head(s: &str, sep: char) -> (r: String)
    ensures
        r@ == head_of(s@, sep),
{
    let v = chars_of(s);
    let mut i: usize = 0;
    assert(s@.take(0) =~= Seq::empty());
    while i < v.len() && v[i] != sep
        invariant
            v@ == s@,
            i <= v@.len(),
            split(s@.take(i as int), sep) =~= seq![s@.take(i as int)],
        decreases v.len() - i,
    {
        assert(s@.take(i + 1).drop_last() =~= s@.take(i as int));
        assert(s@.take(i as int).push(s@[i as int]) =~= s@.take(i + 1));
        i = i + 1;
    }
    proof {
        assert(s@.subrange(0, i as int) =~= s@.take(i as int));
        if i < v.len() {
            lemma_split_from(s@, sep, i as int);
        } else {
            assert(s@.take(i as int) =~= s@);
        }
    }
    text_of(&v, 0, i)
}

/// What comes after the first `sep` does not change the piece before it.
proof fn lemma_split_from(s: Text, sep: char, i: int)
    requires
        0 <= i < s.len(),
        s[i] == sep,
        split(s.take(i), sep) =~= seq![s.take(i)],
    ensures
        split(s, sep)[0] == s.take(i),
        split(s, sep).len() >= 2,
    decreases s.len(),
{
    if s.len() == i + 1 {
        assert(s.drop_last() =~= s.take(i));
    } else {
        assert(s.drop_last().take(i) =~= s.take(i));
        lemma_split_from(s.drop_last(), sep, i);
    }
}

/// A line without the carriage return before its line feed.
pub open spec fn without_return(line: Text) -> Text {
    if line.len() > 0 && line.last() == '\r' {
        line.drop_last()
    } else {
        line
    }
}

/// The lines of a text. A line feed ends a line, with a carriage return before
/// it; the last line needs none.
pub open spec fn lines(s: Text) -> Seq<Text> {
    let parts = split(s, '\n');
    let ended = parts.drop_last().map_values(|line: Text| without_return(line));
    if parts.last().len() == 0 {
        ended
    } else {
        ended.push(parts.last())
    }
}

/// Cuts a text into its lines.
pub fn lines_of(s: &str) -> (r: Vec<String>)
    ensures
        r.deep_view() == lines(s@),
{
    let parts = pieces(s, '\n');
    let ghost all = parts.deep_view();
    proof {
        lemma_split_nonempty(s@, '\n');
    }
    let last: usize = parts.len() - 1;
    let mut out: Vec<String> = Vec::new();
    let mut i: usize = 0;
    let ghost ended = all.drop_last().map_values(|line: Text| without_return(line));
    while i < last
        invariant
            all == parts.deep_view(),
            last == all.len() - 1,
            i <= last,
            ended == all.drop_last().map_values(|line: Text| without_return(line)),
            out.deep_view() =~= ended.take(i as int),
        decreases last - i,
    {
        let v = chars_of(parts[i].as_str());
        if v.len() > 0 && v[v.len() - 1] == '\r' {
            let line = text_of(&v, 0, v.len() - 1);
            assert(line@ =~= all[i as int].drop_last());
            push(&mut out, line);
        } else {
            push(&mut out, copy(parts[i].as_str()));
        }
        i = i + 1;
    }
    assert(ended.take(i as int) =~= ended);
    if !parts[last].as_str().is_empty() {
        push(&mut out, copy(parts[last].as_str()));
    }
    out
}

/// The order of texts: by the first character in which they differ, a text
/// before all that continue it.
pub open spec fn before(a: Text, b: Text) -> bool
    decreases a.len(),
{
    if b.len() == 0 {
        false
    } else if a.len() == 0 {
        true
    } else if a[0] != b[0] {
        a[0] < b[0]
    } else {
        before(a.drop_first(), b.drop_first())
    }
}

/// Whether `a` comes before `b`.
pub fn comes_before(a: &str, b: &str) -> (r: bool)
    ensures
        r == before(a@, b@),
{
    let x = chars_of(a);
    let y = chars_of(b);
    let mut i: usize = 0;
    assert(a@.skip(0) =~= a@ && b@.skip(0) =~= b@);
    while i < x.len() && i < y.len()
        invariant
            x@ == a@,
            y@ == b@,
            i <= x@.len(),
            i <= y@.len(),
            before(a@, b@) == before(a@.skip(i as int), b@.skip(i as int)),
        decreases x.len() - i,
    {
        if x[i] != y[i] {
            return x[i] < y[i];
        }
        assert(a@.skip(i as int).drop_first() =~= a@.skip(i + 1));
        assert(b@.skip(i as int).drop_first() =~= b@.skip(i + 1));
        i = i + 1;
    }
    i < y.len()
}

/// No text comes before itself, nor before one that comes before it.
pub proof fn lemma_before_irreflexive(a: Text, b: Text)
    ensures
        !before(a, a),
        !(before(a, b) && before(b, a)),
    decreases a.len(),
{
    if a.len() > 0 {
        lemma_before_irreflexive(a.drop_first(), if b.len() > 0 { b.drop_first() } else { b });
    }
}

/// The order is transitive.
pub proof fn lemma_before_transitive(a: Text, b: Text, c: Text)
    requires
        before(a, b),
        before(b, c),
    ensures
        before(a, c),
    decreases a.len(),
{
    if a.len() > 0 && a[0] == b[0] && b[0] == c[0] {
        lemma_before_transitive(a.drop_first(), b.drop_first(), c.drop_first());
    }
}

/// Of two different texts one comes before the other.
pub proof fn lemma_before_total(a: Text, b: Text)
    ensures
        a == b || before(a, b) || before(b, a),
    decreases a.len(),
{
    if a.len() > 0 && b.len() > 0 && a[0] == b[0] {
        lemma_before_total(a.drop_first(), b.drop_first());
        if a.drop_first() == b.drop_first() {
            assert(a =~= seq![a[0]] + a.drop_first());
            assert(b =~= seq![b[0]] + b.drop_first());
        }
    } else if a.len() == 0 && b.len() == 0 {
        assert(a =~= b);
    }
}

/// What stands before the last `c`.
pub open spec fn before_last(s: Text, c: char) -> Option<Text>
    decreases s.len(),
{
    if s.len() == 0 {
        None
    } else if s.last() == c {
        Some(s.drop_last())
    } else {
        before_last(s.drop_last(), c)
    }
}

/// What stands before the last `c`.
pub fn cut_last(s: &str, c: char) -> (r: Option<String>)
    ensures
        r.deep_view() == before_last(s@, c),
{
    let v = chars_of(s);
    let mut n: usize = v.len();
    assert(v@.take(n as int) =~= v@);
    while n > 0
        invariant
            n <= v@.len(),
            v@ == s@,
            before_last(s@, c) == before_last(v@.take(n as int), c),
        decreases n,
    {
        assert(v@.take(n as int).drop_last() =~= v@.take(n - 1));
        if v[n - 1] == c {
            let r = text_of(&v, 0, n - 1);
            assert(r@ =~= v@.take(n - 1));
            return Some(r);
        }
        n = n - 1;
    }
    None
}

/// A text with spaces after it, up to a width.
pub open spec fn padded(s: Text, width: nat) -> Text
    decreases width - s.len(),
{
    if s.len() < width {
        padded(s.push(' '), width)
    } else {
        s
    }
}

/// A text with spaces after it, up to a width.
pub fn pad(s: &str, width: usize) -> (r: String)
    ensures
        r@ == padded(s@, width as nat),
{
    let v = chars_of(s);
    let mut out = copy(s);
    let mut n: usize = v.len();
    while n < width
        invariant
            n == out@.len(),
            padded(s@, width as nat) == padded(out@, width as nat),
        decreases width - n,
    {
        out.push(' ');
        n = n + 1;
    }
    out
}

/// The bytes that a character takes in UTF-8.
pub open spec fn width(c: char) -> int {
    if c <= '\u{7f}' {
        1
    } else if c <= '\u{7ff}' {
        2
    } else if c <= '\u{ffff}' {
        3
    } else {
        4
    }
}

/// The bytes that a character takes in UTF-8.
pub fn char_width(c: char) -> (r: u128)
    ensures
        r == width(c),
{
    if c <= '\u{7f}' {
        1
    } else if c <= '\u{7ff}' {
        2
    } else if c <= '\u{ffff}' {
        3
    } else {
        4
    }
}

} // verus!
