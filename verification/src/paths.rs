//! Paths on disk, as text with forward slashes.

use vstd::prelude::*;

use crate::text::{self, copy, same, Text};

verus! {

/// `b` as seen from `a`: below it, or `b` alone where it starts at the root.
pub open spec fn path_join(a: Text, b: Text) -> Text {
    if b.len() > 0 && b[0] == '/' {
        b
    } else if a.len() == 0 || a.last() == '/' {
        a + b
    } else {
        a.push('/') + b
    }
}

/// Joins two paths written with forward slashes.
pub fn join_path(a: &str, b: &str) -> (r: String)
    ensures
        r@ == path_join(a@, b@),
{
    let v = text::chars_of(b);
    if v.len() > 0 && v[0] == '/' {
        return copy(b);
    }
    let u = text::chars_of(a);
    let mut out = copy(a);
    if u.len() > 0 && u[u.len() - 1] != '/' {
        out.push('/');
    }
    out.append(b);
    out
}

/// A component of a path.
pub enum Part {
    /// The slash that a path from the root begins with.
    Root,
    /// The dot that a path begins with.
    Here,
    /// Two dots.
    Up,
    /// A name.
    Name(String),
}

/// What a `Part` is.
pub enum PartView {
    Root,
    Here,
    Up,
    Name(Text),
}

impl DeepView for Part {
    type V = PartView;

    open spec fn deep_view(&self) -> PartView {
        match self {
            Part::Root => PartView::Root,
            Part::Here => PartView::Here,
            Part::Up => PartView::Up,
            Part::Name(n) => PartView::Name(n@),
        }
    }
}

/// The component that a piece between slashes is. Nothing between two slashes
/// is none, and neither is a dot but at the beginning.
pub open spec fn part_of(piece: Text, first: bool) -> Option<PartView> {
    if piece.len() == 0 {
        None
    } else if piece == "."@ {
        if first {
            Some(PartView::Here)
        } else {
            None
        }
    } else if piece == ".."@ {
        Some(PartView::Up)
    } else {
        Some(PartView::Name(piece))
    }
}

/// The components that pieces between slashes are.
pub open spec fn body_parts(pieces: Seq<Text>) -> Seq<PartView>
    decreases pieces.len(),
{
    if pieces.len() == 0 {
        Seq::empty()
    } else {
        let some = body_parts(pieces.drop_last());
        match part_of(pieces.last(), pieces.len() == 1) {
            Some(p) => some.push(p),
            None => some,
        }
    }
}

/// The components of a path.
pub open spec fn parts(path: Text) -> Seq<PartView> {
    let body = body_parts(text::split(path, '/'));
    if path.len() > 0 && path[0] == '/' {
        seq![PartView::Root] + body
    } else {
        body
    }
}

/// Cuts a path into its components.
pub fn parts_of(path: &str) -> (r: Vec<Part>)
    ensures
        r.deep_view() == parts(path@),
{
    let v = text::chars_of(path);
    let mut out: Vec<Part> = Vec::new();
    if v.len() > 0 && v[0] == '/' {
        text::push(&mut out, Part::Root);
    }
    let ghost start = out.deep_view();
    let pieces = text::pieces(path, '/');
    let ghost all = pieces.deep_view();
    let mut i: usize = 0;
    assert(all.take(0) =~= Seq::empty());
    assert(start =~= start + body_parts(all.take(0)));
    while i < pieces.len()
        invariant
            all == pieces.deep_view(),
            i <= pieces@.len(),
            out.deep_view() == start + body_parts(all.take(i as int)),
        decreases pieces.len() - i,
    {
        assert(all.take(i + 1).drop_last() =~= all.take(i as int));
        let ghost some = body_parts(all.take(i as int));
        let piece = pieces[i].as_str();
        if !piece.is_empty() {
            if same(piece, ".") {
                if i == 0 {
                    text::push(&mut out, Part::Here);
                    assert(out.deep_view() =~= start + some.push(PartView::Here));
                }
            } else if same(piece, "..") {
                text::push(&mut out, Part::Up);
                assert(out.deep_view() =~= start + some.push(PartView::Up));
            } else {
                text::push(&mut out, Part::Name(copy(piece)));
                assert(out.deep_view() =~= start + some.push(PartView::Name(piece@)));
            }
        }
        i = i + 1;
    }
    assert(all.take(i as int) =~= all);
    assert(out.deep_view() =~= parts(path@));
    out
}

/// A component as it is written.
pub open spec fn part_text(p: PartView) -> Text {
    match p {
        PartView::Root => "/"@,
        PartView::Here => "."@,
        PartView::Up => ".."@,
        PartView::Name(n) => n,
    }
}

/// How many of the first `n` pieces there are up to the last that is a component.
pub open spec fn ended_by(pieces: Seq<Text>, n: int) -> int
    decreases n,
{
    if n <= 0 {
        0
    } else if part_of(pieces[n - 1], n == 1) is Some {
        n
    } else {
        ended_by(pieces, n - 1)
    }
}

/// Where the last `r` components of the first `n` pieces begin.
pub open spec fn started_at(pieces: Seq<Text>, n: int, r: int) -> int
    decreases n,
{
    if n <= 0 {
        0
    } else if part_of(pieces[n - 1], n == 1) is None {
        started_at(pieces, n - 1, r)
    } else if r <= 1 {
        n - 1
    } else {
        started_at(pieces, n - 1, r - 1)
    }
}

/// A path up to its first `k` pieces: the text as it is, or what it starts from.
pub open spec fn up_to(path: Text, k: int) -> Text {
    if k > 0 {
        text::joined(text::split(path, '/').take(k), "/"@)
    } else if path.len() > 0 && path[0] == '/' {
        "/"@
    } else {
        Seq::empty()
    }
}

/// Whether a piece between slashes is a component.
fn is_part(piece: &str, first: bool) -> (r: bool)
    ensures
        r == (part_of(piece@, first) is Some),
{
    !piece.is_empty() && (first || !same(piece, "."))
}

/// How many of the first `n` pieces there are up to the last that is a component.
fn end_of(pieces: &Vec<String>, n: usize) -> (r: usize)
    requires
        n <= pieces@.len(),
    ensures
        r <= n,
        r == ended_by(pieces.deep_view(), n as int),
{
    let ghost all = pieces.deep_view();
    let mut k: usize = n;
    while k > 0
        invariant
            all == pieces.deep_view(),
            k <= n <= all.len(),
            ended_by(all, n as int) == ended_by(all, k as int),
        decreases k,
    {
        assert(all[k - 1] == pieces@[k - 1]@);
        if is_part(pieces[k - 1].as_str(), k == 1) {
            return k;
        }
        k = k - 1;
    }
    0
}

/// Where the last `r` components of the pieces begin.
fn start_of(pieces: &Vec<String>, r: usize) -> (s: usize)
    ensures
        s <= pieces@.len(),
        s == started_at(pieces.deep_view(), pieces@.len() as int, r as int),
{
    let ghost all = pieces.deep_view();
    let n: usize = pieces.len();
    let mut k: usize = n;
    let mut left: usize = r;
    while k > 0
        invariant
            all == pieces.deep_view(),
            k <= n == all.len(),
            started_at(all, n as int, r as int) == started_at(all, k as int, left as int),
        decreases k,
    {
        assert(all[k - 1] == pieces@[k - 1]@);
        if is_part(pieces[k - 1].as_str(), k == 1) {
            if left <= 1 {
                return k - 1;
            }
            left = left - 1;
        }
        k = k - 1;
    }
    0
}

/// The pieces `from..to` with slashes between them.
fn between(pieces: &Vec<String>, from: usize, to: usize) -> (r: String)
    requires
        from <= to <= pieces@.len(),
    ensures
        r@ == text::joined(pieces.deep_view().subrange(from as int, to as int), "/"@),
{
    let ghost all = pieces.deep_view();
    let mut some: Vec<String> = Vec::new();
    let mut i: usize = from;
    assert(some.deep_view() =~= all.subrange(from as int, from as int));
    while i < to
        invariant
            all == pieces.deep_view(),
            from <= i <= to <= all.len(),
            some.deep_view() == all.subrange(from as int, i as int),
        decreases to - i,
    {
        assert(all[i as int] == pieces@[i as int]@);
        assert(all.subrange(from as int, i as int).push(all[i as int]) =~= all.subrange(
            from as int,
            i + 1,
        ));
        text::push(&mut some, copy(pieces[i].as_str()));
        i = i + 1;
    }
    text::join(&some, "/")
}

/// A path up to its first `k` pieces.
fn cut(path: &str, pieces: &Vec<String>, k: usize) -> (r: String)
    requires
        pieces.deep_view() == text::split(path@, '/'),
        k <= pieces@.len(),
    ensures
        r@ == up_to(path@, k as int),
{
    if k > 0 {
        assert(pieces.deep_view().subrange(0, k as int) =~= pieces.deep_view().take(k as int));
        return between(pieces, 0, k);
    }
    let v = text::chars_of(path);
    if v.len() > 0 && v[0] == '/' {
        copy("/")
    } else {
        String::new()
    }
}

/// The last name of a path.
pub open spec fn name_of(path: Text) -> Option<Text> {
    let ps = parts(path);
    if ps.len() > 0 {
        match ps.last() {
            PartView::Name(n) => Some(n),
            _ => None,
        }
    } else {
        None
    }
}

/// The last name of a path.
pub fn file_name(path: &str) -> (r: Option<String>)
    ensures
        r.deep_view() == name_of(path@),
{
    let ps = parts_of(path);
    let n: usize = ps.len();
    if n == 0 {
        return None;
    }
    assert(parts(path@).last() == ps@[n - 1].deep_view());
    match &ps[n - 1] {
        Part::Name(n) => Some(copy(n.as_str())),
        _ => None,
    }
}

/// The path of what holds this one: the text before the last component.
pub open spec fn parent_of(path: Text) -> Option<Text> {
    let pieces = text::split(path, '/');
    let n = pieces.len() as int;
    if parts(path).len() == 0 || parts(path).last() == PartView::Root {
        None
    } else {
        Some(up_to(path, ended_by(pieces, started_at(pieces, n, 1))))
    }
}

/// The path of what holds this one.
pub fn parent(path: &str) -> (r: Option<String>)
    ensures
        r.deep_view() == parent_of(path@),
{
    let ps = parts_of(path);
    let n: usize = ps.len();
    if n == 0 {
        return None;
    }
    assert(parts(path@).last() == ps@[n - 1].deep_view());
    if let Part::Root = &ps[n - 1] {
        return None;
    }
    let pieces = text::pieces(path, '/');
    let last = start_of(&pieces, 1);
    let k = end_of(&pieces, last);
    Some(cut(path, &pieces, k))
}

/// The path is `base`, or lies below it.
pub open spec fn under(path: Text, base: Text) -> bool {
    parts(base).is_prefix_of(parts(path))
}

/// Whether two components are the same.
fn same_part(a: &Part, b: &Part) -> (r: bool)
    ensures
        r == (a.deep_view() == b.deep_view()),
{
    match (a, b) {
        (Part::Root, Part::Root) => true,
        (Part::Here, Part::Here) => true,
        (Part::Up, Part::Up) => true,
        (Part::Name(x), Part::Name(y)) => same(x.as_str(), y.as_str()),
        _ => false,
    }
}

/// Whether one list of components begins with another.
fn begins(ps: &Vec<Part>, base: &Vec<Part>) -> (r: bool)
    ensures
        r == base.deep_view().is_prefix_of(ps.deep_view()),
{
    let ghost a = ps.deep_view();
    let ghost b = base.deep_view();
    if base.len() > ps.len() {
        return false;
    }
    let mut i: usize = 0;
    while i < base.len()
        invariant
            a == ps.deep_view(),
            b == base.deep_view(),
            b.len() <= a.len(),
            i <= b.len(),
            forall|j: int| 0 <= j < i ==> b[j] == a[j],
        decreases base.len() - i,
    {
        if !same_part(&ps[i], &base[i]) {
            assert(a.subrange(0, b.len() as int)[i as int] != b[i as int]);
            return false;
        }
        i = i + 1;
    }
    assert(a.subrange(0, b.len() as int) =~= b);
    true
}

/// Whether a path is `base` or lies below it.
pub fn is_under(path: &str, base: &str) -> (r: bool)
    ensures
        r == under(path@, base@),
{
    begins(&parts_of(path), &parts_of(base))
}

/// A path as seen from `base`, or as it is where it does not lie below: the text
/// from the first component behind the base to the last.
pub open spec fn relative(path: Text, base: Text) -> Text {
    let pieces = text::split(path, '/');
    let n = pieces.len() as int;
    let r = parts(path).len() - parts(base).len();
    if !under(path, base) {
        path
    } else if parts(base).len() == 0 {
        up_to(path, ended_by(pieces, n))
    } else if r == 0 {
        Seq::empty()
    } else {
        text::joined(
            pieces.subrange(started_at(pieces, n, r as int), ended_by(pieces, n)),
            "/"@,
        )
    }
}

/// A path as seen from `base`.
pub fn strip_base(path: &str, base: &str) -> (r: String)
    ensures
        r@ == relative(path@, base@),
{
    let ps = parts_of(path);
    let bs = parts_of(base);
    if !begins(&ps, &bs) {
        return copy(path);
    }
    let pieces = text::pieces(path, '/');
    let n: usize = pieces.len();
    let end = end_of(&pieces, n);
    if bs.len() == 0 {
        return cut(path, &pieces, end);
    }
    let r: usize = ps.len() - bs.len();
    if r == 0 {
        return String::new();
    }
    let start = start_of(&pieces, r);
    proof {
        lemma_start_before_end(pieces.deep_view(), n as int, r as int);
    }
    between(&pieces, start, end)
}

proof fn lemma_start_before_end(pieces: Seq<Text>, n: int, r: int)
    requires
        0 <= n,
    ensures
        0 <= started_at(pieces, n, r) <= ended_by(pieces, n) <= n,
        ended_by(pieces, n) > 0 ==> started_at(pieces, n, r) < ended_by(pieces, n) && part_of(
            pieces[ended_by(pieces, n) - 1],
            ended_by(pieces, n) == 1,
        ) is Some,
    decreases n,
{
    if n > 0 {
        if part_of(pieces[n - 1], n == 1) is None {
            lemma_start_before_end(pieces, n - 1, r);
        } else if r > 1 {
            lemma_start_before_end(pieces, n - 1, r - 1);
        }
    }
}

/// The rank of a component in the order of paths.
pub open spec fn rank(p: PartView) -> int {
    match p {
        PartView::Root => 0,
        PartView::Here => 1,
        PartView::Up => 2,
        PartView::Name(_) => 3,
    }
}

/// The order of components: names by their text, after everything else.
pub open spec fn part_before(a: PartView, b: PartView) -> bool {
    match (a, b) {
        (PartView::Name(x), PartView::Name(y)) => text::before(x, y),
        _ => rank(a) < rank(b),
    }
}

/// The order of paths: by the first component in which they differ, a folder
/// before what it holds.
pub open spec fn parts_before(a: Seq<PartView>, b: Seq<PartView>) -> bool
    decreases a.len(),
{
    if b.len() == 0 {
        false
    } else if a.len() == 0 {
        true
    } else if a[0] != b[0] {
        part_before(a[0], b[0])
    } else {
        parts_before(a.drop_first(), b.drop_first())
    }
}

/// The order of paths.
pub open spec fn path_before(a: Text, b: Text) -> bool {
    parts_before(parts(a), parts(b))
}

/// The rank of a component.
fn rank_of(p: &Part) -> (r: u8)
    ensures
        r == rank(p.deep_view()),
{
    match p {
        Part::Root => 0,
        Part::Here => 1,
        Part::Up => 2,
        Part::Name(_) => 3,
    }
}

/// Whether a component comes before another.
fn part_comes_before(a: &Part, b: &Part) -> (r: bool)
    ensures
        r == part_before(a.deep_view(), b.deep_view()),
{
    if let (Part::Name(m), Part::Name(n)) = (a, b) {
        text::comes_before(m.as_str(), n.as_str())
    } else {
        rank_of(a) < rank_of(b)
    }
}

/// Whether a path comes before another.
pub fn sorts_before(a: &str, b: &str) -> (r: bool)
    ensures
        r == path_before(a@, b@),
{
    let x = parts_of(a);
    let y = parts_of(b);
    let ghost p = x.deep_view();
    let ghost q = y.deep_view();
    let mut i: usize = 0;
    assert(p.skip(0) =~= p && q.skip(0) =~= q);
    while i < x.len() && i < y.len()
        invariant
            p == x.deep_view(),
            q == y.deep_view(),
            p == parts(a@),
            q == parts(b@),
            i <= p.len(),
            i <= q.len(),
            parts_before(p, q) == parts_before(p.skip(i as int), q.skip(i as int)),
        decreases x.len() - i,
    {
        assert(p[i as int] == x@[i as int].deep_view());
        assert(q[i as int] == y@[i as int].deep_view());
        if !same_part(&x[i], &y[i]) {
            return part_comes_before(&x[i], &y[i]);
        }
        assert(p.skip(i as int).drop_first() =~= p.skip(i + 1));
        assert(q.skip(i as int).drop_first() =~= q.skip(i + 1));
        i = i + 1;
    }
    i < y.len()
}

/// Where the extension of a name begins: at its last dot, if that is not where
/// the name begins.
pub open spec fn dot_of(name: Text, n: int) -> Option<int>
    decreases n,
{
    if n <= 1 {
        None
    } else if name[n - 1] == '.' {
        Some(n - 1)
    } else {
        dot_of(name, n - 1)
    }
}

/// The extension of a file.
pub open spec fn extension_of(path: Text) -> Option<Text> {
    match name_of(path) {
        Some(name) => match dot_of(name, name.len() as int) {
            Some(i) => Some(name.skip(i + 1)),
            None => None,
        },
        None => None,
    }
}

/// The place of the dot before the extension.
fn find_dot(v: &Vec<char>) -> (r: Option<usize>)
    ensures
        match r {
            Some(i) => i < v@.len() && dot_of(v@, v@.len() as int) == Some(i as int),
            None => dot_of(v@, v@.len() as int) is None,
        },
{
    let mut n: usize = v.len();
    while n > 1
        invariant
            n <= v@.len(),
            dot_of(v@, v@.len() as int) == dot_of(v@, n as int),
        decreases n,
    {
        if v[n - 1] == '.' {
            return Some(n - 1);
        }
        n = n - 1;
    }
    None
}

/// Whether a file is one of Luau code.
pub open spec fn is_luau(path: Text) -> bool {
    extension_of(path) == Some("luau"@)
}

/// Whether a file is one of Luau code.
pub fn holds_luau(path: &str) -> (r: bool)
    ensures
        r == is_luau(path@),
{
    match file_name(path) {
        Some(name) => {
            let v = text::chars_of(name.as_str());
            match find_dot(&v) {
                Some(i) => {
                    let n: usize = v.len();
                    let ext = text::text_of(&v, i + 1, n);
                    assert(ext@ =~= v@.skip(i + 1));
                    same(ext.as_str(), "luau")
                },
                None => false,
            }
        },
        None => false,
    }
}

/// A path with more behind the name that it ends in. A path that ends in no name
/// is left as it is.
pub open spec fn lengthened(path: Text, more: Text) -> Text {
    let pieces = text::split(path, '/');
    match name_of(path) {
        Some(name) => up_to(path, ended_by(pieces, pieces.len() as int)) + more,
        None => path,
    }
}

/// A path with more behind the name that it ends in.
pub fn lengthen(path: &str, more: &str) -> (r: String)
    ensures
        r@ == lengthened(path@, more@),
{
    match file_name(path) {
        Some(_) => {
            let pieces = text::pieces(path, '/');
            let n: usize = pieces.len();
            cut(path, &pieces, end_of(&pieces, n)).concat(more)
        },
        None => copy(path),
    }
}

/// Two paths that lead to the same place: their components are the same.
pub fn same_path(a: &str, b: &str) -> (r: bool)
    ensures
        r == (parts(a@) == parts(b@)),
{
    let x = parts_of(a);
    let y = parts_of(b);
    let r = x.len() == y.len() && begins(&x, &y);
    proof {
        if r {
            assert(x.deep_view().subrange(0, y@.len() as int) =~= x.deep_view());
        } else if parts(a@) == parts(b@) {
            assert(x.deep_view().subrange(0, y@.len() as int) =~= x.deep_view());
        }
    }
    r
}

/// A component of a path has this name.
pub open spec fn passes_through(path: Text, name: Text) -> bool {
    parts(path).contains(PartView::Name(name))
}

/// Whether a component of a path has this name.
pub fn goes_through(path: &str, name: &str) -> (r: bool)
    ensures
        r == passes_through(path@, name@),
{
    let ps = parts_of(path);
    let ghost all = ps.deep_view();
    let mut i: usize = 0;
    while i < ps.len()
        invariant
            all == ps.deep_view(),
            all == parts(path@),
            i <= all.len(),
            forall|j: int| 0 <= j < i ==> all[j] != PartView::Name(name@),
        decreases ps.len() - i,
    {
        if let Part::Name(n) = &ps[i] {
            if same(n.as_str(), name) {
                assert(all[i as int] == PartView::Name(name@));
                return true;
            }
        }
        assert(all[i as int] == ps@[i as int].deep_view());
        i = i + 1;
    }
    false
}

/// A set of paths in their order, with one more. A path that leads where one of
/// them leads is not added.
pub open spec fn with_path(s: Seq<Text>, p: Text) -> Seq<Text>
    decreases s.len(),
{
    if s.len() == 0 {
        seq![p]
    } else if parts(s[0]) == parts(p) {
        s
    } else if path_before(s[0], p) {
        seq![s[0]] + with_path(s.drop_first(), p)
    } else {
        seq![p] + s
    }
}

/// Paths in their order, each once.
pub open spec fn path_set(s: Seq<Text>) -> Seq<Text>
    decreases s.len(),
{
    if s.len() == 0 {
        Seq::empty()
    } else {
        with_path(path_set(s.drop_last()), s.last())
    }
}

proof fn lemma_parts_irreflexive(a: Seq<PartView>)
    ensures
        !parts_before(a, a),
    decreases a.len(),
{
    if a.len() > 0 {
        lemma_parts_irreflexive(a.drop_first());
    }
}

proof fn lemma_with_path_at(s: Seq<Text>, p: Text, i: int)
    requires
        0 <= i <= s.len(),
        forall|j: int| 0 <= j < i ==> path_before(#[trigger] s[j], p),
        i < s.len() ==> !path_before(s[i], p),
    ensures
        with_path(s, p) == (if i < s.len() && parts(s[i]) == parts(p) {
            s
        } else {
            s.insert(i, p)
        }),
    decreases i,
{
    lemma_parts_irreflexive(parts(p));
    if i == 0 {
        assert(seq![p] + s =~= s.insert(0, p));
    } else {
        let rest = s.drop_first();
        assert(path_before(s[0], p));
        assert forall|j: int| 0 <= j < i - 1 implies path_before(#[trigger] rest[j], p) by {
            assert(path_before(s[j + 1], p));
        }
        lemma_with_path_at(rest, p, i - 1);
        if i < s.len() && parts(s[i]) == parts(p) {
            assert(seq![s[0]] + rest =~= s);
        } else {
            assert(seq![s[0]] + rest.insert(i - 1, p) =~= s.insert(i, p));
        }
    }
}

/// Adds a path to a set of paths in their order.
pub fn add_path(set: &mut Vec<String>, p: &str)
    ensures
        final(set).deep_view() == with_path(old(set).deep_view(), p@),
{
    let ghost was = set.deep_view();
    let mut i: usize = 0;
    while i < set.len() && sorts_before(set[i].as_str(), p)
        invariant
            set.deep_view() == was,
            i <= was.len(),
            forall|j: int| 0 <= j < i ==> path_before(#[trigger] was[j], p@),
        decreases set.len() - i,
    {
        assert(path_before(was[i as int], p@));
        i = i + 1;
    }
    proof {
        assert(i < was.len() ==> was[i as int] == set@[i as int]@);
        lemma_with_path_at(was, p@, i as int);
    }
    if !(i < set.len() && same_path(set[i].as_str(), p)) {
        set.insert(i, copy(p));
        assert(set.deep_view() =~= was.insert(i as int, p@));
    }
}

/// A path as messages show it: seen from the root, with forward slashes.
pub open spec fn shown(root: Text, path: Text) -> Text {
    text::slashes(relative(path, root))
}

/// A path as messages show it.
pub fn show(root: &str, path: &str) -> (r: String)
    ensures
        r@ == shown(root@, path@),
{
    text::replace(strip_base(path, root).as_str(), '\\', '/')
}

/// A component as a path can have it: the root and the dot stand first, and a
/// name is a text without slashes that is neither nothing nor dots.
pub open spec fn fits(p: PartView, first: bool) -> bool {
    match p {
        PartView::Root => first,
        PartView::Here => first,
        PartView::Up => true,
        PartView::Name(n) => n.len() > 0 && n != "."@ && n != ".."@ && !n.contains('/'),
    }
}

proof fn lemma_split_no_slash(s: Text)
    ensures
        forall|i: int| 0 <= i < text::split(s, '/').len() ==> !(#[trigger] text::split(
            s,
            '/',
        )[i]).contains('/'),
    decreases s.len(),
{
    let all = text::split(s, '/');
    if s.len() > 0 {
        lemma_split_no_slash(s.drop_last());
        text::lemma_split_nonempty(s.drop_last(), '/');
        let before = text::split(s.drop_last(), '/');
        assert forall|i: int| 0 <= i < all.len() implies !(#[trigger] all[i]).contains('/') by {
            if s.last() == '/' {
                if i < before.len() {
                    assert(all[i] == before[i]);
                }
            } else if i < before.len() - 1 {
                assert(all[i] == before[i]);
            } else {
                assert(!before[i].contains('/'));
                let piece = before[i];
                assert(all[i] == piece.push(s.last()));
                if all[i].contains('/') {
                    let k = choose|k: int| 0 <= k < all[i].len() && all[i][k] == '/';
                    assert(piece[k] == '/');
                    assert(piece.contains('/'));
                }
            }
        }
    }
}

proof fn lemma_split_part(p: PartView, first: bool)
    requires
        fits(p, first),
        p != PartView::Root,
    ensures
        text::split(part_text(p), '/') == seq![part_text(p)],
        part_of(part_text(p), first) == Some(p),
{
    reveal_strlit(".");
    reveal_strlit("..");
    let t = part_text(p);
    assert forall|i: int| 0 <= i < t.len() implies t[i] != '/' by {
        if let PartView::Name(n) = p {
            if n[i] == '/' {
                assert(n.contains('/'));
            }
        }
    }
    text::lemma_split_plain(t, '/');
}

proof fn lemma_begins_with_slash(s: Text)
    requires
        text::split(s, '/').len() > 1,
        text::split(s, '/')[0].len() == 0,
    ensures
        s.len() > 0,
        s[0] == '/',
    decreases s.len(),
{
    if s.len() > 0 {
        let before = text::split(s.drop_last(), '/');
        text::lemma_split_nonempty(s.drop_last(), '/');
        if before.len() > 1 {
            lemma_begins_with_slash(s.drop_last());
        } else if s.len() > 1 {
            lemma_one_piece(s.drop_last());
        }
    }
}

proof fn lemma_one_piece(s: Text)
    requires
        text::split(s, '/').len() == 1,
    ensures
        text::split(s, '/')[0] == s,
    decreases s.len(),
{
    text::law_split_join(s, '/');
}

/// A path whose first piece holds something does not begin with a slash.
proof fn lemma_first_piece(s: Text)
    requires
        text::split(s, '/')[0].len() > 0,
    ensures
        s.len() > 0,
        s[0] != '/',
    decreases s.len(),
{
    if s.len() > 0 && s[0] == '/' {
        let tail = s.drop_first();
        assert(Seq::<char>::empty().push('/') + tail =~= s);
        text::lemma_split_cat(Seq::empty(), '/', tail);
        assert(text::split(Seq::<char>::empty(), '/')[0].len() == 0);
        text::lemma_split_nonempty(tail, '/');
        assert(text::split(s, '/')[0] == text::split(Seq::<char>::empty(), '/')[0]);
    }
}

/// The pieces behind the last component add none.
proof fn lemma_body_ended(pieces: Seq<Text>, n: int)
    requires
        0 <= n <= pieces.len(),
    ensures
        body_parts(pieces.take(n)) == body_parts(pieces.take(ended_by(pieces, n))),
    decreases n,
{
    if n > 0 && part_of(pieces[n - 1], n == 1) is None {
        assert(pieces.take(n).drop_last() =~= pieces.take(n - 1));
        lemma_body_ended(pieces, n - 1);
    }
}

/// The last components of some pieces are those from where they begin.
proof fn lemma_body_started(pieces: Seq<Text>, n: int, r: int)
    requires
        0 <= n <= pieces.len(),
        1 <= r <= body_parts(pieces.take(n)).len(),
    ensures
        ({
            let at = started_at(pieces, n, r);
            &&& 0 <= at < n
            &&& body_parts(pieces.take(at)) == body_parts(pieces.take(n)).take(
                body_parts(pieces.take(n)).len() - r,
            )
            &&& at > 0 ==> tail_parts(pieces.subrange(at, ended_by(pieces, n))) == body_parts(
                pieces.take(n),
            ).skip(body_parts(pieces.take(n)).len() - r)
            &&& part_of(pieces[at], at == 0) is Some
        }),
    decreases n,
{
    lemma_start_before_end(pieces, n, r);
    let all = body_parts(pieces.take(n));
    let some = body_parts(pieces.take(n - 1));
    assert(n > 0 ==> pieces.take(n).drop_last() =~= pieces.take(n - 1));
    let at = started_at(pieces, n, r);
    if part_of(pieces[n - 1], n == 1) is None {
        lemma_body_started(pieces, n - 1, r);
    } else if r == 1 {
        let cut = pieces.subrange(at, n);
        assert(all.take(all.len() - 1) =~= some);
        assert(cut =~= seq![pieces[n - 1]]);
        assert(cut.drop_last() =~= Seq::<Text>::empty());
        assert(tail_parts(cut.drop_last()) =~= Seq::empty());
        if at > 0 {
            assert(tail_parts(cut) =~= all.skip(all.len() - 1));
        }
    } else {
        lemma_body_started(pieces, n - 1, r - 1);
        lemma_tail_ended(pieces, at, n - 1);
        assert(all.take(all.len() - r) =~= some.take(some.len() - (r - 1)));
        let cut = pieces.subrange(at, n);
        assert(cut.drop_last() =~= pieces.subrange(at, n - 1));
        if at > 0 {
            assert(tail_parts(cut) =~= all.skip(all.len() - r));
        }
    }
}

/// The pieces behind the last component add none, also to what stands before
/// them.
proof fn lemma_tail_ended(pieces: Seq<Text>, at: int, n: int)
    requires
        0 <= at < n <= pieces.len(),
        part_of(pieces[at], at == 0) is Some,
    ensures
        at < ended_by(pieces, n) <= n,
        at > 0 ==> tail_parts(pieces.subrange(at, n)) == tail_parts(
            pieces.subrange(at, ended_by(pieces, n)),
        ),
    decreases n,
{
    if part_of(pieces[n - 1], n == 1) is None {
        assert(at != n - 1);
        lemma_tail_ended(pieces, at, n - 1);
        assert(pieces.subrange(at, n).drop_last() =~= pieces.subrange(at, n - 1));
    }
}

/// A path up to some of its pieces has the components of those pieces.
proof fn lemma_up_to(path: Text, k: int)
    requires
        0 <= k <= text::split(path, '/').len(),
        k > 0 ==> part_of(text::split(path, '/')[k - 1], k == 1) is Some,
    ensures
        ({
            let body = body_parts(text::split(path, '/').take(k));
            parts(up_to(path, k)) == if path.len() > 0 && path[0] == '/' {
                seq![PartView::Root] + body
            } else {
                body
            }
        }),
        k > 0 ==> text::split(up_to(path, k), '/') == text::split(path, '/').take(k),
{
    reveal_strlit("/");
    let pieces = text::split(path, '/');
    let some = pieces.take(k);
    let w = up_to(path, k);
    let empty = Seq::<char>::empty();
    text::lemma_split_nonempty(path, '/');
    if k == 0 {
        assert(some =~= Seq::empty());
        assert(body_parts(some) =~= Seq::empty());
        assert(seq![empty].drop_last() =~= Seq::<Text>::empty());
        assert(body_parts(seq![empty].drop_last()) =~= Seq::empty());
        assert(body_parts(seq![empty]) =~= Seq::empty());
        if path.len() > 0 && path[0] == '/' {
            assert(w =~= empty.push('/') + empty);
            text::lemma_split_cat(empty, '/', empty);
            assert(text::split(w, '/') =~= seq![empty].push(empty));
            assert(seq![empty].push(empty).drop_last() =~= seq![empty]);
            assert(parts(w) =~= seq![PartView::Root]);
        } else {
            assert(text::split(w, '/') =~= seq![empty]);
            assert(parts(w) =~= Seq::empty());
        }
    } else {
        lemma_split_no_slash(path);
        assert forall|i: int| 0 <= i < some.len() implies !(#[trigger] some[i]).contains('/') by {
            assert(!pieces[i].contains('/'));
        }
        assert("/"@ =~= seq!['/']);
        text::law_join_split(some, '/');
        assert(some[0] == pieces[0]);
        if path.len() > 0 && path[0] == '/' {
            let tail = path.drop_first();
            assert(empty.push('/') + tail =~= path);
            text::lemma_split_cat(empty, '/', tail);
            assert(pieces[0].len() == 0);
            assert(k > 1);
            lemma_begins_with_slash(w);
        } else {
            if pieces[0].len() == 0 {
                if pieces.len() > 1 {
                    lemma_begins_with_slash(path);
                } else {
                    lemma_one_piece(path);
                    assert(k == 1);
                }
            }
            lemma_first_piece(w);
        }
    }
}

/// What holds a path is the path without its last component, so that there is an
/// end to going up.
pub proof fn law_parent(path: Text)
    requires
        parent_of(path) is Some,
    ensures
        parts(parent_of(path)->0) == parts(path).drop_last(),
{
    let pieces = text::split(path, '/');
    let n = pieces.len() as int;
    assert(pieces.take(n) =~= pieces);
    let body = body_parts(pieces);
    assert(body.len() > 0);
    lemma_body_started(pieces, n, 1);
    let at = started_at(pieces, n, 1);
    lemma_start_before_end(pieces, at, 1);
    lemma_body_ended(pieces, at);
    lemma_up_to(path, ended_by(pieces, at));
    assert(parts(parent_of(path)->0) =~= parts(path).drop_last());
}

/// What holds a path is the beginning of its text, as it is written.
pub proof fn law_parent_is_a_beginning(path: Text)
    requires
        parent_of(path) is Some,
    ensures
        (parent_of(path)->0).is_prefix_of(path),
{
    reveal_strlit("/");
    let pieces = text::split(path, '/');
    let n = pieces.len() as int;
    let at = started_at(pieces, n, 1);
    lemma_start_before_end(pieces, n, 1);
    lemma_start_before_end(pieces, at, 1);
    let k = ended_by(pieces, at);
    assert("/"@ =~= seq!['/']);
    if k > 0 {
        text::law_split_join(path, '/');
        assert(pieces.take(n) =~= pieces);
        lemma_joined_begins(pieces, k, n);
    } else if path.len() > 0 && path[0] == '/' {
        assert(path.take(1) =~= "/"@);
    }
}

proof fn lemma_joined_begins(pieces: Seq<Text>, k: int, n: int)
    requires
        0 < k <= n <= pieces.len(),
    ensures
        text::joined(pieces.take(k), "/"@).is_prefix_of(text::joined(pieces.take(n), "/"@)),
    decreases n,
{
    if k < n {
        lemma_joined_begins(pieces, k, n - 1);
        assert(pieces.take(n).drop_last() =~= pieces.take(n - 1));
        let a = text::joined(pieces.take(k), "/"@);
        let b = text::joined(pieces.take(n - 1), "/"@);
        let c = text::joined(pieces.take(n), "/"@);
        assert(c.take(b.len() as int) =~= b);
        assert(c.take(a.len() as int) =~= b.take(a.len() as int));
    }
}

proof fn lemma_body_prefix(s: Seq<Text>, t: Seq<Text>)
    ensures
        body_parts(s).is_prefix_of(body_parts(s + t)),
        s.len() > 0 && (t.len() > 0 ==> t[0] != "."@) ==> body_parts(s + t) == body_parts(s)
            + body_parts(t),
    decreases t.len(),
{
    if t.len() == 0 {
        assert(s + t =~= s);
        assert(body_parts(s) + body_parts(t) =~= body_parts(s));
        assert(body_parts(s).subrange(0, body_parts(s).len() as int) =~= body_parts(s));
    } else {
        let rest = t.drop_last();
        lemma_body_prefix(s, rest);
        assert((s + t).drop_last() =~= s + rest);
        assert((s + t).last() == t.last());
        let a = body_parts(s);
        let b = body_parts(s + rest);
        let c = body_parts(s + t);
        assert(b.subrange(0, a.len() as int) == a);
        assert(c.subrange(0, a.len() as int) =~= a);
        if s.len() > 0 && t[0] != "."@ {
            if rest.len() > 0 {
                assert(rest[0] == t[0]);
            }
            assert(c =~= a + body_parts(t));
        }
    }
}

/// The pieces of a path with something after it.
proof fn lemma_split_join(a: Text, b: Text)
    requires
        a.len() > 0,
        b.len() == 0 || b[0] != '/',
    ensures
        path_join(a, b)[0] == a[0],
        ({
            let joined = text::split(path_join(a, b), '/');
            if a.last() == '/' {
                joined == text::split(a, '/').drop_last() + text::split(b, '/')
            } else {
                joined == text::split(a, '/') + text::split(b, '/')
            }
        }),
{
    if a.last() == '/' {
        let lead = a.drop_last();
        assert(a + b =~= lead.push('/') + b);
        text::lemma_split_cat(lead, '/', b);
        assert(text::split(a, '/').drop_last() =~= text::split(lead, '/'));
    } else {
        text::lemma_split_cat(a, '/', b);
    }
}

/// A path with something after it lies below that path, unless what comes after
/// starts at the root.
pub proof fn law_join_is_under(a: Text, b: Text)
    requires
        b.len() == 0 || b[0] != '/',
    ensures
        under(path_join(a, b), a),
{
    let j = path_join(a, b);
    if a.len() == 0 {
        assert(text::split(a, '/') =~= seq![Seq::<char>::empty()]);
        assert(text::split(a, '/').drop_last() =~= Seq::<Text>::empty());
        assert(body_parts(text::split(a, '/').drop_last()) =~= Seq::empty());
        assert(parts(a) =~= Seq::empty());
        assert(parts(j).subrange(0, 0) =~= parts(a));
    } else {
        lemma_split_join(a, b);
        lemma_body_of_folder(a);
        let lead = if a.last() == '/' {
            text::split(a, '/').drop_last()
        } else {
            text::split(a, '/')
        };
        lemma_body_prefix(lead, text::split(b, '/'));
        let x = body_parts(lead);
        let y = body_parts(text::split(j, '/'));
        assert(y.subrange(0, x.len() as int) == x);
        assert(parts(j).subrange(0, parts(a).len() as int) =~= parts(a));
    }
}

/// A slash at the end of a path adds nothing to it.
proof fn lemma_body_of_folder(a: Text)
    requires
        a.len() > 0,
    ensures
        a.last() == '/' ==> body_parts(text::split(a, '/').drop_last()) == body_parts(
            text::split(a, '/'),
        ),
{
    if a.last() == '/' {
        let before = text::split(a.drop_last(), '/');
        assert(text::split(a, '/') =~= before.push(Seq::empty()));
        assert(text::split(a, '/').drop_last() =~= before);
    }
}

/// A path that lies below a base is the base with the rest of the path after it.
pub proof fn law_relative(path: Text, base: Text)
    requires
        under(path, base),
    ensures
        parts(path_join(base, relative(path, base))) == parts(path),
{
    reveal_strlit("/");
    let all = parts(path);
    let k = parts(base).len() as int;
    let r = all.len() - k;
    let rel = relative(path, base);
    let pieces = text::split(path, '/');
    let n = pieces.len() as int;
    let empty = Seq::<char>::empty();
    assert(pieces.take(n) =~= pieces);
    assert(all.take(k) == parts(base));
    if base.len() == 0 {
        assert(text::split(base, '/') =~= seq![empty]);
        assert(text::split(base, '/').drop_last() =~= Seq::<Text>::empty());
        assert(body_parts(text::split(base, '/').drop_last()) =~= Seq::empty());
        assert(k == 0);
        lemma_start_before_end(pieces, n, 1);
        lemma_body_ended(pieces, n);
        lemma_up_to(path, ended_by(pieces, n));
        assert(parts(rel) =~= all);
        assert(path_join(base, rel) =~= rel);
    } else {
        lemma_some_part(base);
        if r == 0 {
            law_join(base, rel);
            assert(text::split(rel, '/') =~= seq![empty]);
            assert(seq![empty].drop_last() =~= Seq::<Text>::empty());
            assert(tail_parts(seq![empty].drop_last()) =~= Seq::empty());
            assert(tail_parts(seq![empty]) =~= Seq::empty());
            assert(parts(path_join(base, rel)) =~= all);
        } else {
            let body = body_parts(pieces);
            lemma_body_started(pieces, n, r);
            lemma_start_before_end(pieces, n, r);
            let at = started_at(pieces, n, r);
            let end = ended_by(pieces, n);
            let some = pieces.subrange(at, end);
            if at == 0 {
                assert(body.take(body.len() - r) =~= body_parts(pieces.take(0)));
                assert(pieces.take(0) =~= Seq::empty());
                if path.len() > 0 && path[0] == '/' {
                    let tail = path.drop_first();
                    assert(empty.push('/') + tail =~= path);
                    text::lemma_split_cat(empty, '/', tail);
                }
            }
            lemma_split_no_slash(path);
            assert forall|i: int| 0 <= i < some.len() implies !(#[trigger] some[i]).contains(
                '/',
            ) by {
                assert(!pieces[at + i].contains('/'));
            }
            assert("/"@ =~= seq!['/']);
            text::law_join_split(some, '/');
            assert(some[0] == pieces[at]);
            lemma_first_piece(rel);
            law_join(base, rel);
            assert(all.skip(k) =~= body.skip(body.len() - r));
            assert(parts(base) + all.skip(k) =~= all);
        }
    }
}

/// A path that holds something has a component.
proof fn lemma_some_part(path: Text)
    requires
        path.len() > 0,
    ensures
        parts(path).len() > 0,
{
    if path[0] != '/' {
        let pieces = text::split(path, '/');
        text::lemma_split_nonempty(path, '/');
        if pieces[0].len() == 0 {
            if pieces.len() > 1 {
                lemma_begins_with_slash(path);
            } else {
                lemma_one_piece(path);
            }
        }
        assert(pieces.take(1) + pieces.skip(1) =~= pieces);
        lemma_body_prefix(pieces.take(1), pieces.skip(1));
        let first = pieces.take(1);
        assert(first.drop_last() =~= Seq::<Text>::empty());
        assert(body_parts(first.drop_last()) =~= Seq::empty());
        assert(body_parts(first).len() == 1);
        assert(body_parts(pieces).subrange(0, 1) == body_parts(first));
    }
}

proof fn lemma_part_order(a: PartView, b: PartView, c: PartView)
    ensures
        !part_before(a, a),
        a == b || part_before(a, b) || part_before(b, a),
        part_before(a, b) && part_before(b, c) ==> part_before(a, c),
{
    if let (PartView::Name(x), PartView::Name(y)) = (a, b) {
        text::lemma_before_total(x, y);
    }
    if let PartView::Name(x) = a {
        text::lemma_before_irreflexive(x, x);
    }
    if let (PartView::Name(x), PartView::Name(y), PartView::Name(z)) = (a, b, c) {
        if text::before(x, y) && text::before(y, z) {
            text::lemma_before_transitive(x, y, z);
        }
    }
}

proof fn lemma_parts_total(a: Seq<PartView>, b: Seq<PartView>)
    ensures
        a == b || parts_before(a, b) || parts_before(b, a),
    decreases a.len(),
{
    if a.len() > 0 && b.len() > 0 {
        lemma_part_order(a[0], b[0], a[0]);
        if a[0] == b[0] {
            lemma_parts_total(a.drop_first(), b.drop_first());
            assert(a =~= seq![a[0]] + a.drop_first());
            assert(b =~= seq![b[0]] + b.drop_first());
        }
    } else if a.len() == 0 && b.len() == 0 {
        assert(a =~= b);
    }
}

proof fn lemma_parts_transitive(a: Seq<PartView>, b: Seq<PartView>, c: Seq<PartView>)
    requires
        parts_before(a, b),
        parts_before(b, c),
    ensures
        parts_before(a, c),
    decreases a.len(),
{
    if a.len() > 0 {
        lemma_part_order(a[0], b[0], c[0]);
        lemma_part_order(c[0], b[0], c[0]);
        if a[0] == b[0] && b[0] == c[0] {
            lemma_parts_transitive(a.drop_first(), b.drop_first(), c.drop_first());
        } else if a[0] == c[0] {
            assert(part_before(a[0], b[0]));
            assert(part_before(b[0], a[0]));
            lemma_part_order(a[0], b[0], a[0]);
        }
    }
}

/// The paths stand in order, and no two of them lead to the same place.
pub open spec fn in_path_order(s: Seq<Text>) -> bool {
    forall|i: int, j: int|
        #![trigger s[i], s[j]]
        0 <= i < j < s.len() ==> path_before(s[i], s[j])
}

/// One of the paths leads where this one does.
pub open spec fn leads_there(s: Seq<Text>, p: Text) -> bool {
    exists|i: int| 0 <= i < s.len() && parts(#[trigger] s[i]) == parts(p)
}

/// Adding a path to a set keeps it in order, and adds that path alone.
pub proof fn law_with_path(s: Seq<Text>, p: Text)
    requires
        in_path_order(s),
    ensures
        in_path_order(with_path(s, p)),
        forall|t: Text| #[trigger] with_path(s, p).contains(t) ==> s.contains(t) || t == p,
        forall|t: Text| #[trigger] s.contains(t) ==> with_path(s, p).contains(t),
        leads_there(with_path(s, p), p),
    decreases s.len(),
{
    let r = with_path(s, p);
    if s.len() == 0 {
        assert(r[0] == p);
    } else if parts(s[0]) == parts(p) {
    } else if path_before(s[0], p) {
        let rest = s.drop_first();
        let more = with_path(rest, p);
        assert forall|i: int, j: int|
            #![trigger rest[i], rest[j]]
            0 <= i < j < rest.len() implies path_before(rest[i], rest[j]) by {
            assert(path_before(s[i + 1], s[j + 1]));
        }
        law_with_path(rest, p);
        let w = choose|i: int| 0 <= i < more.len() && parts(#[trigger] more[i]) == parts(p);
        assert(parts(r[w + 1]) == parts(p));
        assert forall|t: Text| #[trigger] r.contains(t) implies s.contains(t) || t == p by {
            let i = choose|i: int| 0 <= i < r.len() && r[i] == t;
            if i > 0 {
                assert(more[i - 1] == t);
                assert(more.contains(t));
                if rest.contains(t) {
                    let j = choose|j: int| 0 <= j < rest.len() && rest[j] == t;
                    assert(s[j + 1] == t);
                }
            } else {
                assert(s[0] == t);
            }
        }
        assert forall|t: Text| #[trigger] s.contains(t) implies r.contains(t) by {
            let j = choose|j: int| 0 <= j < s.len() && s[j] == t;
            if j > 0 {
                assert(rest[j - 1] == t);
                assert(rest.contains(t));
                let i = choose|i: int| 0 <= i < more.len() && more[i] == t;
                assert(more.contains(t));
                assert(r[i + 1] == t);
            } else {
                assert(r[0] == t);
            }
        }
        assert forall|i: int, j: int|
            #![trigger r[i], r[j]]
            0 <= i < j < r.len() implies path_before(r[i], r[j]) by {
            if i > 0 {
                assert(path_before(more[i - 1], more[j - 1]));
            } else {
                assert(more.contains(more[j - 1]));
                if rest.contains(r[j]) {
                    let m = choose|m: int| 0 <= m < rest.len() && rest[m] == r[j];
                    assert(path_before(s[0], s[m + 1]));
                }
            }
        }
    } else {
        assert(r[0] == p);
        lemma_parts_total(parts(s[0]), parts(p));
        assert forall|t: Text| #[trigger] r.contains(t) implies s.contains(t) || t == p by {
            let i = choose|i: int| 0 <= i < r.len() && r[i] == t;
            if i > 0 {
                assert(s[i - 1] == t);
            }
        }
        assert forall|t: Text| #[trigger] s.contains(t) implies r.contains(t) by {
            let j = choose|j: int| 0 <= j < s.len() && s[j] == t;
            assert(r[j + 1] == t);
        }
        assert forall|i: int, j: int|
            #![trigger r[i], r[j]]
            0 <= i < j < r.len() implies path_before(r[i], r[j]) by {
            if i > 0 {
                assert(path_before(s[i - 1], s[j - 1]));
            } else if j > 1 {
                assert(path_before(s[0], s[j - 1]));
                lemma_parts_transitive(parts(p), parts(s[0]), parts(s[j - 1]));
            }
        }
    }
}

/// The set of a list of paths stands in order, holds no path that the list does
/// not hold, and leads wherever the list leads.
pub proof fn law_path_set(s: Seq<Text>)
    ensures
        in_path_order(path_set(s)),
        forall|t: Text| #[trigger] path_set(s).contains(t) ==> s.contains(t),
        forall|i: int| 0 <= i < s.len() ==> leads_there(path_set(s), #[trigger] s[i]),
    decreases s.len(),
{
    if s.len() > 0 {
        let rest = s.drop_last();
        law_path_set(rest);
        let some = path_set(rest);
        let all = path_set(s);
        law_with_path(some, s.last());
        assert forall|t: Text| #[trigger] all.contains(t) implies s.contains(t) by {
            if some.contains(t) {
                let i = choose|i: int| 0 <= i < rest.len() && rest[i] == t;
                assert(s[i] == t);
            } else {
                assert(s[s.len() - 1] == t);
            }
        }
        assert forall|i: int| 0 <= i < s.len() implies leads_there(all, #[trigger] s[i]) by {
            if i < rest.len() {
                assert(leads_there(some, rest[i]));
                let k = choose|k: int|
                    0 <= k < some.len() && parts(#[trigger] some[k]) == parts(rest[i]);
                assert(some.contains(some[k]));
                assert(all.contains(some[k]));
                let m = choose|m: int| 0 <= m < all.len() && all[m] == some[k];
                assert(parts(all[m]) == parts(s[i]));
            }
        }
    }
}

/// A name behind a path is one component more.
pub proof fn law_name_behind(a: Text, name: Text)
    requires
        a.len() > 0,
        fits(PartView::Name(name), false),
    ensures
        parts(a.push('/') + name) == parts(a).push(PartView::Name(name)),
{
    lemma_split_part(PartView::Name(name), false);
    text::lemma_split_cat(a, '/', name);
    let pieces = text::split(a.push('/') + name, '/');
    text::lemma_split_nonempty(a, '/');
    assert(pieces.drop_last() =~= text::split(a, '/'));
    assert(parts(a.push('/') + name) =~= parts(a).push(PartView::Name(name)));
}

/// What is put behind the name of a path stands behind the name, and nothing else
/// changes.
pub proof fn law_lengthened(a: Text, more: Text)
    requires
        name_of(a) is Some,
        !more.contains('/'),
        more.len() > 1,
    ensures
        parts(lengthened(a, more)) == parts(a).drop_last().push(
            PartView::Name(name_of(a)->0 + more),
        ),
{
    reveal_strlit("/");
    reveal_strlit(".");
    reveal_strlit("..");
    let pieces = text::split(a, '/');
    let n = pieces.len() as int;
    let name = name_of(a)->0;
    let full = name + more;
    assert(pieces.take(n) =~= pieces);
    lemma_body_ended(pieces, n);
    lemma_start_before_end(pieces, n, 1);
    let k = ended_by(pieces, n);
    if k == 0 {
        assert(pieces.take(0) =~= Seq::empty());
        assert(body_parts(pieces.take(0)) =~= Seq::empty());
        assert(parts(a) =~= (if a.len() > 0 && a[0] == '/' {
            seq![PartView::Root]
        } else {
            Seq::empty()
        }));
    }
    assert(k > 0);
    let lead = pieces.take(k - 1);
    assert(pieces.take(k).drop_last() =~= lead);
    assert(pieces[k - 1] == name);
    let new = lead.push(full);
    assert(new.drop_last() =~= lead);
    let w = lengthened(a, more);
    assert("/"@ =~= seq!['/']);
    assert(w =~= text::joined(new, "/"@));
    lemma_split_no_slash(a);
    assert(!full.contains('/')) by {
        assert(!pieces[k - 1].contains('/'));
        if full.contains('/') {
            let i = choose|i: int| 0 <= i < full.len() && full[i] == '/';
            if i < name.len() {
                assert(name[i] == '/');
                assert(name.contains('/'));
            } else {
                assert(more[i - name.len()] == '/');
                assert(more.contains('/'));
            }
        }
    }
    assert forall|i: int| 0 <= i < new.len() implies !(#[trigger] new[i]).contains('/') by {
        if i < k - 1 {
            assert(!pieces[i].contains('/'));
        }
    }
    text::law_join_split(new, '/');
    assert(full.len() > 2);
    assert(part_of(full, k == 1) == Some(PartView::Name(full)));
    let empty = Seq::<char>::empty();
    if a.len() > 0 && a[0] == '/' {
        let tail = a.drop_first();
        assert(empty.push('/') + tail =~= a);
        text::lemma_split_cat(empty, '/', tail);
        assert(pieces[0].len() == 0);
        assert(k > 1);
        assert(new[0] == pieces[0]);
        lemma_begins_with_slash(w);
    } else {
        if pieces[0].len() == 0 {
            if pieces.len() > 1 {
                lemma_begins_with_slash(a);
            } else {
                lemma_one_piece(a);
            }
        }
        assert(new[0].len() > 0);
        lemma_first_piece(w);
    }
    assert(parts(w) =~= parts(a).drop_last().push(PartView::Name(full)));
}

/// The components that pieces between slashes are where something stands before
/// them.
pub open spec fn tail_parts(pieces: Seq<Text>) -> Seq<PartView>
    decreases pieces.len(),
{
    if pieces.len() == 0 {
        Seq::empty()
    } else {
        let some = tail_parts(pieces.drop_last());
        match part_of(pieces.last(), false) {
            Some(p) => some.push(p),
            None => some,
        }
    }
}

proof fn lemma_body_tail(s: Seq<Text>, t: Seq<Text>)
    requires
        s.len() > 0,
    ensures
        body_parts(s + t) == body_parts(s) + tail_parts(t),
    decreases t.len(),
{
    if t.len() == 0 {
        assert(s + t =~= s);
        assert(body_parts(s) + tail_parts(t) =~= body_parts(s));
    } else {
        lemma_body_tail(s, t.drop_last());
        assert((s + t).drop_last() =~= s + t.drop_last());
        assert((s + t).last() == t.last());
        assert(body_parts(s + t) =~= body_parts(s) + tail_parts(t));
    }
}

proof fn lemma_tail_cat(s: Seq<Text>, t: Seq<Text>)
    ensures
        tail_parts(s + t) == tail_parts(s) + tail_parts(t),
    decreases t.len(),
{
    if t.len() == 0 {
        assert(s + t =~= s);
        assert(tail_parts(s) + tail_parts(t) =~= tail_parts(s));
    } else {
        lemma_tail_cat(s, t.drop_last());
        assert((s + t).drop_last() =~= s + t.drop_last());
        assert((s + t).last() == t.last());
        assert(tail_parts(s + t) =~= tail_parts(s) + tail_parts(t));
    }
}

proof fn lemma_tail_is_body(t: Seq<Text>)
    requires
        t.len() > 0 ==> t[0] != "."@,
    ensures
        tail_parts(t) == body_parts(t),
    decreases t.len(),
{
    if t.len() > 0 {
        if t.len() > 1 {
            assert(t.drop_last()[0] == t[0]);
        }
        lemma_tail_is_body(t.drop_last());
    }
}

/// A path with something after it has the components of the path, then those of
/// what comes after.
pub proof fn law_join(a: Text, b: Text)
    requires
        a.len() > 0,
        b.len() == 0 || b[0] != '/',
    ensures
        parts(path_join(a, b)) == parts(a) + tail_parts(text::split(b, '/')),
{
    lemma_split_join(a, b);
    lemma_body_of_folder(a);
    text::lemma_split_nonempty(a, '/');
    let lead = if a.last() == '/' {
        text::split(a, '/').drop_last()
    } else {
        text::split(a, '/')
    };
    if a.last() == '/' {
        text::lemma_split_nonempty(a.drop_last(), '/');
    }
    lemma_body_tail(lead, text::split(b, '/'));
    assert(parts(path_join(a, b)) =~= parts(a) + tail_parts(text::split(b, '/')));
}

/// What stands below a folder, or below nothing.
proof fn lemma_below(source: Text, b: Text)
    requires
        b.len() > 0,
        b[0] != '/',
        text::split(b, '/')[0] != "."@,
    ensures
        parts(path_join(source, b)) == parts(source) + tail_parts(text::split(b, '/')),
        path_join(source, b).len() > 0,
{
    if source.len() == 0 {
        assert(source + b =~= b);
        assert(text::split(source, '/') =~= seq![Seq::<char>::empty()]);
        assert(text::split(source, '/').drop_last() =~= Seq::<Text>::empty());
        assert(body_parts(text::split(source, '/').drop_last()) =~= Seq::empty());
        assert(parts(source) =~= Seq::empty());
        lemma_tail_is_body(text::split(b, '/'));
        assert(parts(b) =~= parts(source) + tail_parts(text::split(b, '/')));
    } else {
        law_join(source, b);
    }
}

/// The first component of what stands below a folder.
pub proof fn lemma_below_first(source: Text, name: Text, rest: Text)
    requires
        fits(PartView::Name(name), false),
    ensures
        ({
            let all = parts(path_join(source, name.push('/') + rest));
            &&& path_join(source, name.push('/') + rest).len() > 0
            &&& parts(source).len() < all.len()
            &&& all[parts(source).len() as int] == PartView::Name(name)
        }),
{
    let b = name.push('/') + rest;
    lemma_split_part(PartView::Name(name), false);
    text::lemma_split_cat(name, '/', rest);
    assert(b[0] == name[0]);
    if name[0] == '/' {
        assert(name.contains('/'));
    }
    assert(text::split(b, '/')[0] == name);
    lemma_below(source, b);
    lemma_tail_cat(seq![name], text::split(rest, '/'));
    assert(seq![name].drop_last() =~= Seq::<Text>::empty());
    assert(tail_parts(seq![name].drop_last()) =~= Seq::empty());
    assert(tail_parts(seq![name]) =~= seq![PartView::Name(name)]);
}

/// Two components below a folder.
pub proof fn lemma_below_two(source: Text, first: Text, second: Text)
    requires
        fits(PartView::Name(first), false),
        fits(PartView::Name(second), false),
    ensures
        path_join(source, first.push('/') + second).len() > 0,
        parts(path_join(source, first.push('/') + second)) == parts(source).push(
            PartView::Name(first),
        ).push(PartView::Name(second)),
{
    let b = first.push('/') + second;
    lemma_split_part(PartView::Name(first), false);
    lemma_split_part(PartView::Name(second), false);
    text::lemma_split_cat(first, '/', second);
    assert(b[0] == first[0]);
    if first[0] == '/' {
        assert(first.contains('/'));
    }
    assert(text::split(b, '/')[0] == first);
    lemma_below(source, b);
    lemma_tail_cat(seq![first], seq![second]);
    assert(seq![first].drop_last() =~= Seq::<Text>::empty());
    assert(seq![second].drop_last() =~= Seq::<Text>::empty());
    assert(tail_parts(Seq::<Text>::empty()) =~= Seq::empty());
    assert(tail_parts(seq![first]) =~= seq![PartView::Name(first)]);
    assert(tail_parts(seq![second]) =~= seq![PartView::Name(second)]);
    assert(parts(path_join(source, b)) =~= parts(source).push(PartView::Name(first)).push(
        PartView::Name(second),
    ));
}

/// Names with slashes between them.
pub open spec fn slashed(names: Seq<Text>) -> Text
    decreases names.len(),
{
    if names.len() == 0 {
        Seq::empty()
    } else if names.len() == 1 {
        names[0]
    } else {
        slashed(names.drop_last()).push('/') + names.last()
    }
}

/// The components that names are.
pub open spec fn named(names: Seq<Text>) -> Seq<PartView> {
    names.map_values(|n: Text| PartView::Name(n))
}

proof fn lemma_slashed(names: Seq<Text>)
    requires
        names.len() > 0,
        forall|i: int| 0 <= i < names.len() ==> fits(PartView::Name(#[trigger] names[i]), false),
    ensures
        text::split(slashed(names), '/') == names,
        tail_parts(names) == named(names),
        slashed(names).len() > 0,
        slashed(names)[0] == names[0][0],
    decreases names.len(),
{
    let last = names.last();
    assert(fits(PartView::Name(names[names.len() - 1]), false));
    lemma_split_part(PartView::Name(last), false);
    let some = names.drop_last();
    if names.len() == 1 {
        assert(names =~= seq![last]);
        assert(some =~= Seq::<Text>::empty());
        assert(tail_parts(some) =~= Seq::empty());
    } else {
        assert forall|i: int| 0 <= i < some.len() implies fits(
            PartView::Name(#[trigger] some[i]),
            false,
        ) by {
            assert(fits(PartView::Name(names[i]), false));
        }
        lemma_slashed(some);
        text::lemma_split_cat(slashed(some), '/', last);
        assert(names =~= some + seq![last]);
    }
    assert(tail_parts(names) =~= named(names));
}

/// Names below a folder, or below nothing.
pub proof fn lemma_below_names(source: Text, names: Seq<Text>)
    requires
        names.len() > 0,
        forall|i: int| 0 <= i < names.len() ==> fits(PartView::Name(#[trigger] names[i]), false),
    ensures
        path_join(source, slashed(names)).len() > 0,
        parts(path_join(source, slashed(names))) == parts(source) + named(names),
{
    lemma_slashed(names);
    assert(fits(PartView::Name(names[0]), false));
    if names[0][0] == '/' {
        assert(names[0].contains('/'));
    }
    lemma_below(source, slashed(names));
}

} // verus!
