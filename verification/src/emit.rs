//! The type leaf of a module.

use vstd::prelude::*;

use crate::layout::{self, Layout, LayoutView};
use crate::module::{Field, ImportView, LocalType, LocalTypeView, Module, ModuleView, ServiceView};
use crate::paths::{self, join_path};
use crate::rojo::Side;
use crate::table;
use crate::text::{self, copy, same, Text};

verus! {

/// The bytes of white space that a line begins with.
pub open spec fn indent(line: Text) -> int
    decreases line.len(),
{
    if line.len() > 0 && text::is_white(line[0]) {
        text::width(line[0]) + indent(line.drop_first())
    } else {
        0
    }
}

/// A line holds nothing but white space.
pub open spec fn blank(line: Text) -> bool {
    text::trim(line).len() == 0
}

/// The line without its first `n` bytes. A character that the cut would split
/// goes with them.
pub open spec fn drop_bytes(line: Text, n: int) -> Text
    decreases line.len(),
{
    if n <= 0 || line.len() == 0 {
        line
    } else {
        drop_bytes(line.drop_first(), n - text::width(line[0]))
    }
}

/// The smallest indentation of the lines that are not blank.
pub open spec fn common_indent(lines: Seq<Text>) -> Option<int>
    decreases lines.len(),
{
    if lines.len() == 0 {
        None
    } else {
        let others = common_indent(lines.drop_last());
        if blank(lines.last()) {
            others
        } else {
            let own = indent(lines.last());
            match others {
                Some(n) => Some(if n <= own { n } else { own }),
                None => Some(own),
            }
        }
    }
}

/// Lines laid out against `at`: their common indentation goes, and blank lines
/// hold nothing.
pub open spec fn laid_out(lines: Seq<Text>, common: int, at: Text) -> Text
    decreases lines.len(),
{
    if lines.len() == 0 {
        Seq::empty()
    } else {
        let line = lines.last();
        let done = laid_out(lines.drop_last(), common, at).push('\n');
        if blank(line) {
            done
        } else {
            done + at + drop_bytes(line, common)
        }
    }
}

/// A type laid out against `at`: the first line as it is, the others with the
/// indentation they share replaced by `at`.
pub open spec fn reindented(ty: Text, at: Text) -> Text {
    let lines = text::lines(ty);
    if lines.len() == 0 {
        ty
    } else {
        let rest = lines.drop_first();
        let common = match common_indent(rest) {
            Some(n) => n,
            None => 0,
        };
        lines[0] + laid_out(rest, common, at)
    }
}

/// The bytes of white space that a line begins with.
fn indent_of(line: &str) -> (r: u128)
    ensures
        r == indent(line@),
{
    let v = text::chars_of(line);
    let mut i: usize = 0;
    let mut n: u128 = 0;
    assert(line@.skip(0) =~= line@);
    while i < v.len() && text::white(v[i])
        invariant
            v@ == line@,
            i <= v@.len(),
            n <= 4 * i,
            n + indent(line@.skip(i as int)) == indent(line@),
        decreases v.len() - i,
    {
        assert(line@.skip(i as int).drop_first() =~= line@.skip(i + 1));
        n = n + text::char_width(v[i]);
        i = i + 1;
    }
    n
}

/// The line without its first `n` bytes.
fn cut_bytes(line: &str, n: u128) -> (r: String)
    ensures
        r@ == drop_bytes(line@, n as int),
{
    let v = text::chars_of(line);
    let mut i: usize = 0;
    let mut left: u128 = n;
    let ghost mut rest: int = n as int;
    assert(line@.skip(0) =~= line@);
    while i < v.len() && left > 0
        invariant
            v@ == line@,
            i <= v@.len(),
            left == (if rest > 0 { rest } else { 0 }),
            drop_bytes(line@.skip(i as int), rest) == drop_bytes(line@, n as int),
        decreases v.len() - i,
    {
        assert(line@.skip(i as int).drop_first() =~= line@.skip(i + 1));
        let w = text::char_width(v[i]);
        proof {
            rest = rest - w;
        }
        left = if w < left {
            left - w
        } else {
            0
        };
        i = i + 1;
    }
    let r = text::text_of(&v, i, v.len());
    assert(r@ =~= line@.skip(i as int));
    r
}

/// Whether a line is blank.
fn is_blank(line: &str) -> (r: bool)
    ensures
        r == blank(line@),
{
    let v = text::chars_of(line);
    let i = text::skip_white(&v, 0);
    proof {
        assert(line@.skip(0) =~= line@);
        let t = text::trim_start(line@);
        if i < v.len() {
            lemma_trim_end_keeps(t);
        }
    }
    i == v.len()
}

/// Text that does not begin with white space does not vanish at its end.
pub proof fn lemma_trim_end_keeps(s: Text)
    requires
        s.len() > 0,
        !text::is_white(s[0]),
    ensures
        text::trim_end(s).len() > 0,
    decreases s.len(),
{
    if text::is_white(s.last()) {
        lemma_trim_end_keeps(s.drop_last());
    }
}

/// Lays a type out against `at`.
pub fn reindent(ty: &str, at: &str) -> (r: String)
    ensures
        r@ == reindented(ty@, at@),
{
    let lines = text::lines_of(ty);
    let n: usize = lines.len();
    if n == 0 {
        return copy(ty);
    }
    let ghost rest = lines.deep_view().drop_first();
    let mut common: Option<u128> = None;
    let mut i: usize = 1;
    assert(rest.take(0) =~= Seq::empty());
    while i < n
        invariant
            n == lines@.len(),
            1 <= i <= n,
            rest == lines.deep_view().drop_first(),
            match common {
                Some(c) => common_indent(rest.take(i - 1)) == Some(c as int),
                None => common_indent(rest.take(i - 1)) is None,
            },
        decreases n - i,
    {
        assert(rest.take(i as int).drop_last() =~= rest.take(i - 1));
        assert(rest[i - 1] == lines@[i as int]@);
        let line = lines[i].as_str();
        if !is_blank(line) {
            let own = indent_of(line);
            common = match common {
                Some(c) => Some(if c <= own { c } else { own }),
                None => Some(own),
            };
        }
        i = i + 1;
    }
    assert(rest.take(i - 1) =~= rest);
    let cut: u128 = match common {
        Some(c) => c,
        None => 0,
    };
    let mut out = copy(lines[0].as_str());
    let ghost first = out@;
    let mut k: usize = 1;
    assert(rest.take(0) =~= Seq::empty());
    assert(first =~= first + laid_out(rest.take(0), cut as int, at@));
    while k < n
        invariant
            n == lines@.len(),
            1 <= k <= n,
            rest == lines.deep_view().drop_first(),
            out@ == first + laid_out(rest.take(k - 1), cut as int, at@),
        decreases n - k,
    {
        assert(rest.take(k as int).drop_last() =~= rest.take(k - 1));
        assert(rest[k - 1] == lines@[k as int]@);
        let line = lines[k].as_str();
        let ghost done = laid_out(rest.take(k - 1), cut as int, at@);
        out.push('\n');
        assert(out@ =~= first + done.push('\n'));
        if !is_blank(line) {
            let tail = cut_bytes(line, cut);
            out.append(at);
            out.append(tail.as_str());
            assert(out@ =~= first + (done.push('\n') + at@ + tail@));
        }
        k = k + 1;
    }
    assert(rest.take(k - 1) =~= rest);
    out
}

/// A character of a word: an ASCII letter or digit, or an underscore.
pub open spec fn is_word(c: char) -> bool {
    is_alphanumeric(c) || c == '_'
}

/// An ASCII letter or digit.
pub open spec fn is_alphanumeric(c: char) -> bool {
    ||| 'a' <= c <= 'z'
    ||| 'A' <= c <= 'Z'
    ||| '0' <= c <= '9'
}

/// `name` stands at `i` as a word of its own.
pub open spec fn word_at(s: Text, name: Text, i: int) -> bool {
    &&& text::occurs_at(s, name, i)
    &&& i == 0 || !is_word(s[i - 1])
    &&& i + name.len() == s.len() || !is_word(s[i + name.len()])
}

/// `name` stands somewhere in the text as a word of its own.
pub open spec fn names_word(s: Text, name: Text) -> bool {
    name.len() > 0 && exists|i: int| word_at(s, name, i)
}

/// Some text names the word.
pub open spec fn cited(texts: Seq<Text>, name: Text) -> bool {
    exists|k: int| 0 <= k < texts.len() && names_word(#[trigger] texts[k], name)
}

/// The text reaches through `alias` at `i`: `alias.` with no letter or digit
/// before it, or `typeof(alias)`.
pub open spec fn alias_at(s: Text, alias: Text, i: int) -> bool {
    &&& text::occurs_at(s, alias, i)
    &&& i == 0 || !is_alphanumeric(s[i - 1])
    &&& {
        let after = text::trim_start(s.skip(i + alias.len()));
        ||| "."@.is_prefix_of(after)
        ||| ")"@.is_prefix_of(after) && "typeof("@.is_suffix_of(text::trim_end(s.take(i)))
    }
}

/// The text reaches through the alias somewhere.
pub open spec fn names_alias(s: Text, alias: Text) -> bool {
    exists|i: int| alias_at(s, alias, i)
}

/// Some text reaches through the alias.
pub open spec fn alias_cited(texts: Seq<Text>, alias: Text) -> bool {
    exists|k: int| 0 <= k < texts.len() && names_alias(#[trigger] texts[k], alias)
}

/// Whether a character is an ASCII letter or digit.
fn alphanumeric(c: char) -> (r: bool)
    ensures
        r == is_alphanumeric(c),
{
    ('a' <= c && c <= 'z') || ('A' <= c && c <= 'Z') || ('0' <= c && c <= '9')
}

/// Whether the text names the word.
pub fn has_word(s: &str, name: &str) -> (r: bool)
    ensures
        r == names_word(s@, name@),
{
    let v = text::chars_of(s);
    let p = text::chars_of(name);
    if p.len() == 0 {
        return false;
    }
    let n: usize = v.len();
    let mut i: usize = 0;
    while i < n
        invariant
            v@ == s@,
            p@ == name@,
            n == v@.len(),
            i <= n,
            p@.len() > 0,
            forall|j: int| 0 <= j < i ==> !word_at(s@, name@, j),
        decreases n - i,
    {
        if text::stands_at(&v, &p, i) {
            let before_ok = i == 0 || !(alphanumeric(v[i - 1]) || v[i - 1] == '_');
            let end: usize = i + p.len();
            let after_ok = end == n || !(alphanumeric(v[end]) || v[end] == '_');
            if before_ok && after_ok {
                assert(word_at(s@, name@, i as int));
                return true;
            }
        }
        i = i + 1;
    }
    assert forall|j: int| !word_at(s@, name@, j) by {}
    false
}

/// Whether some text names the word.
pub fn cites(texts: &Vec<String>, name: &str) -> (r: bool)
    ensures
        r == cited(texts.deep_view(), name@),
{
    let ghost all = texts.deep_view();
    let mut k: usize = 0;
    while k < texts.len()
        invariant
            all == texts.deep_view(),
            k <= texts@.len(),
            forall|j: int| 0 <= j < k ==> !names_word(#[trigger] all[j], name@),
        decreases texts.len() - k,
    {
        if has_word(texts[k].as_str(), name) {
            assert(names_word(all[k as int], name@));
            return true;
        }
        assert(!names_word(all[k as int], name@));
        k = k + 1;
    }
    false
}

/// Whether the text reaches through the alias at `i`.
fn reaches_at(v: &Vec<char>, p: &Vec<char>, i: usize) -> (r: bool)
    requires
        i <= v@.len(),
    ensures
        r == alias_at(v@, p@, i as int),
{
    if !text::stands_at(v, p, i) {
        return false;
    }
    if i > 0 && alphanumeric(v[i - 1]) {
        return false;
    }
    let n: usize = v.len();
    let end: usize = i + p.len();
    let at = text::skip_white(v, end);
    proof {
        reveal_strlit(".");
        reveal_strlit(")");
        let after = text::trim_start(v@.skip(end as int));
        assert(after == v@.skip(at as int));
        assert("."@ =~= seq!['.']);
        assert(")"@ =~= seq![')']);
        text::lemma_one_prefix('.', after);
        text::lemma_one_prefix(')', after);
        if at < n {
            assert(after[0] == v@[at as int]);
        }
    }
    if at == n {
        return false;
    }
    if v[at] == '.' {
        return true;
    }
    if v[at] != ')' {
        return false;
    }
    let lead = text::text_of(v, 0, i);
    assert(lead@ =~= v@.take(i as int));
    let u = text::chars_of(lead.as_str());
    let stop = text::end_of_text(&u, 0);
    assert(u@.skip(0) =~= u@);
    let shown = text::text_of(&u, 0, stop);
    text::ends_with(shown.as_str(), "typeof(")
}

/// Whether some text reaches through the alias.
///
/// Nearly always that is `alias.Something`. The exception is `typeof(alias)`,
/// where the module is named on its own.
pub fn cites_alias(texts: &Vec<String>, alias: &str) -> (r: bool)
    ensures
        r == alias_cited(texts.deep_view(), alias@),
{
    let ghost all = texts.deep_view();
    let p = text::chars_of(alias);
    let mut k: usize = 0;
    while k < texts.len()
        invariant
            all == texts.deep_view(),
            p@ == alias@,
            k <= texts@.len(),
            forall|j: int| 0 <= j < k ==> !names_alias(#[trigger] all[j], alias@),
        decreases texts.len() - k,
    {
        let v = text::chars_of(texts[k].as_str());
        let n: usize = v.len();
        let mut i: usize = 0;
        while i < n
            invariant
                all == texts.deep_view(),
                k < texts@.len(),
                p@ == alias@,
                v@ == all[k as int],
                n == v@.len(),
                i <= n,
                forall|j: int| 0 <= j < i ==> !alias_at(all[k as int], alias@, j),
            decreases n - i,
        {
            if reaches_at(&v, &p, i) {
                assert(alias_at(all[k as int], alias@, i as int));
                assert(names_alias(all[k as int], alias@));
                return true;
            }
            i = i + 1;
        }
        if reaches_at(&v, &p, n) {
            assert(alias_at(all[k as int], alias@, n as int));
            assert(names_alias(all[k as int], alias@));
            return true;
        }
        assert(!names_alias(all[k as int], alias@));
        k = k + 1;
    }
    false
}

/// Where a path leads from `segs`: `Parent` goes up, any other name goes down.
pub open spec fn walked(segs: Seq<Text>, parts: Seq<Text>) -> Seq<Text>
    decreases parts.len(),
{
    if parts.len() == 0 {
        segs
    } else {
        let at = walked(segs, parts.drop_last());
        if parts.last() == "Parent"@ {
            if at.len() > 0 {
                at.drop_last()
            } else {
                at
            }
        } else {
            at.push(parts.last())
        }
    }
}

/// A require of a module, as seen from anywhere: what starts at `script` is
/// followed from the module's own path, and the rest already is absolute.
pub open spec fn rewritten(expr: Text, origin: Text) -> Text {
    if expr != "script"@ && !"script."@.is_prefix_of(expr) {
        expr
    } else {
        text::joined(
            walked(
                text::split(origin, '.').filter(|p: Text| p.len() > 0),
                text::split(expr, '.').drop_first(),
            ),
            "."@,
        )
    }
}

/// Rewrites a require of a module to the same target seen from the leaf.
///
/// The leaf lives by itself, so no relative path leads from it to where the
/// module's path leads. The require becomes absolute, resolved against the
/// module's own place in the game.
pub fn rewrite_require(expr: &str, origin: &str) -> (r: String)
    ensures
        r@ == rewritten(expr@, origin@),
{
    if !same(expr, "script") && !text::starts_with(expr, "script.") {
        return copy(expr);
    }
    let mut segs = text::nonempty(text::pieces(origin, '.'));
    let parts = text::pieces(expr, '.');
    proof {
        text::lemma_split_nonempty(expr@, '.');
    }
    let ghost start = segs.deep_view();
    let ghost steps = parts.deep_view().drop_first();
    let n: usize = parts.len();
    let mut i: usize = 1;
    assert(steps.take(0) =~= Seq::empty());
    while i < n
        invariant
            n == parts@.len(),
            1 <= i <= n,
            steps == parts.deep_view().drop_first(),
            segs.deep_view() == walked(start, steps.take(i - 1)),
        decreases n - i,
    {
        assert(steps.take(i as int).drop_last() =~= steps.take(i - 1));
        assert(steps[i - 1] == parts@[i as int]@);
        if same(parts[i].as_str(), "Parent") {
            let ghost at = segs.deep_view();
            let _ = segs.pop();
            assert(segs.deep_view() =~= (if at.len() > 0 {
                at.drop_last()
            } else {
                at
            }));
        } else {
            text::push(&mut segs, copy(parts[i].as_str()));
        }
        i = i + 1;
    }
    assert(steps.take(i - 1) =~= steps);
    text::join(&segs, ".")
}

/// The path of a module's leaf: its id, in the folder of its side.
pub open spec fn leaf_of(layout: LayoutView, side: Side, id: Text) -> Option<Text> {
    match layout::types_dir_of(layout.types_dirs, side) {
        Some(dir) => Some(paths::path_join(dir, id + ".luau"@)),
        None => None,
    }
}

/// Where the type leaf of a module is written.
///
/// By id, not by where the module comes from: an id is unique in a project.
pub fn leaf_path(layout: &Layout, side: Side, id: &str) -> (r: String)
    requires
        layout::types_dir_of(layout.deep_view().types_dirs, side) is Some,
    ensures
        leaf_of(layout.deep_view(), side, id@) == Some(r@),
{
    join_path(layout.types_dir(side).as_str(), copy(id).concat(".luau").as_str())
}

/// The members of a module's public type: a component's instance, the fields,
/// the methods.
pub open spec fn members_of(m: ModuleView) -> Seq<(Text, Text)> {
    let instance: Seq<(Text, Text)> = if m.kind == "Component"@ && !table::keys(m.fields).contains(
        "Instance"@,
    ) {
        seq![("Instance"@, "Instance"@)]
    } else {
        Seq::empty()
    };
    instance + m.fields + m.methods
}

/// The types in a list of members.
pub open spec fn types_of(members: Seq<(Text, Text)>) -> Seq<Text> {
    members.map_values(|m: (Text, Text)| m.1)
}

/// The texts of local types.
pub open spec fn texts_of(types: Seq<LocalTypeView>) -> Seq<Text> {
    types.map_values(|t: LocalTypeView| t.text)
}

/// One pass over the local types: those that the texts, or one taken before in
/// the same pass, name; and those left.
pub open spec fn swept(stale: Seq<LocalTypeView>, target: Seq<Text>) -> (
    Seq<LocalTypeView>,
    Seq<LocalTypeView>,
)
    decreases stale.len(),
{
    if stale.len() == 0 {
        (Seq::empty(), Seq::empty())
    } else {
        let (taken, left) = swept(stale.drop_last(), target);
        let t = stale.last();
        if cited(target + texts_of(taken), t.name) {
            (taken.push(t), left)
        } else {
            (taken, left.push(t))
        }
    }
}

/// Each local type is either taken or left.
pub proof fn lemma_swept_len(stale: Seq<LocalTypeView>, target: Seq<Text>)
    ensures
        swept(stale, target).0.len() + swept(stale, target).1.len() == stale.len(),
    decreases stale.len(),
{
    if stale.len() > 0 {
        lemma_swept_len(stale.drop_last(), target);
    }
}

/// The local types that the texts need: pass after pass, until one takes
/// nothing.
pub open spec fn needed(stale: Seq<LocalTypeView>, target: Seq<Text>) -> Seq<LocalTypeView>
    decreases stale.len(),
{
    let (taken, left) = swept(stale, target);
    if taken.len() == 0 {
        Seq::empty()
    } else {
        proof {
            lemma_swept_len(stale, target);
        }
        taken + needed(left, target + texts_of(taken))
    }
}

/// The texts of the leaf that can reach through a require.
pub open spec fn leaf_texts(m: ModuleView) -> Seq<Text> {
    let own = types_of(members_of(m));
    own + texts_of(needed(m.local_types, own))
}

/// The requires that the leaf reaches through.
pub open spec fn leaf_requires(m: ModuleView) -> Seq<ImportView> {
    m.requires.filter(|r: ImportView| alias_cited(leaf_texts(m), r.alias))
}

/// What they require, as seen from the leaf.
pub open spec fn leaf_exprs(m: ModuleView, origin: Text) -> Seq<Text> {
    leaf_requires(m).map_values(|r: ImportView| rewritten(r.expr, origin))
}

/// Some path starts at the service.
pub open spec fn starts_at(exprs: Seq<Text>, alias: Text) -> bool {
    exists|k: int| 0 <= k < exprs.len() && alias.push('.').is_prefix_of(#[trigger] exprs[k])
}

/// The services of the module that some path starts at.
pub open spec fn leaf_services(m: ModuleView, exprs: Seq<Text>) -> Seq<ServiceView> {
    m.services.filter(|s: ServiceView| starts_at(exprs, s.alias))
}

/// The aliases of services.
pub open spec fn aliases_of(services: Seq<ServiceView>) -> Seq<Text> {
    services.map_values(|s: ServiceView| s.alias)
}

/// The first names of the paths that no service above declares, each once, in
/// the order in which they come.
pub open spec fn extra_roots(exprs: Seq<Text>, declared: Seq<Text>) -> Seq<Text>
    decreases exprs.len(),
{
    if exprs.len() == 0 {
        Seq::empty()
    } else {
        let some = extra_roots(exprs.drop_last(), declared);
        let root = text::head_of(exprs.last(), '.');
        if root.len() == 0 || declared.contains(root) || some.contains(root) {
            some
        } else {
            some.push(root)
        }
    }
}

/// `local alias = game:GetService("service")`.
pub open spec fn service_line(alias: Text, service: Text) -> Text {
    "local "@ + alias + " = game:GetService(\""@ + service + "\")"@
}

/// `local alias = require(expr)`.
pub open spec fn require_line(alias: Text, expr: Text) -> Text {
    "local "@ + alias + " = require("@ + expr + ")"@
}

/// The lines before the types: the services, the roots, the requires.
pub open spec fn header_lines(m: ModuleView, origin: Text) -> Seq<Text> {
    let exprs = leaf_exprs(m, origin);
    let services = leaf_services(m, exprs);
    services.map_values(|s: ServiceView| service_line(s.alias, s.service)) + extra_roots(
        exprs,
        aliases_of(services),
    ).map_values(|root: Text| service_line(root, root)) + leaf_requires(m).map_values(
        |r: ImportView| require_line(r.alias, rewritten(r.expr, origin)),
    )
}

/// A member of the public type.
pub open spec fn member_line(member: (Text, Text)) -> Text {
    "\t"@ + member.0 + ": "@ + reindented(member.1, "\t"@) + ","@
}

/// Lines with a line feed between, and one at the end.
pub open spec fn block(lines: Seq<Text>) -> Text {
    text::joined(lines, "\n"@) + "\n"@
}

/// The public type.
pub open spec fn public_lines(m: ModuleView) -> Seq<Text> {
    seq!["export type Public = {"@] + members_of(m).map_values(
        |member: (Text, Text)| member_line(member),
    ) + seq!["}"@]
}

/// The head of a leaf: where its module was read, and that it is not to be edited.
pub open spec fn leaf_head(file: Text) -> Text {
    "--!strict\n-- GERADO por modux a partir de "@ + file
        + "\n-- NAO EDITAR A MAO: a proxima geracao sobrescreve.\n"@
}

/// The blocks of a leaf.
pub open spec fn leaf_blocks(m: ModuleView, origin: Text) -> Seq<Text> {
    let header = header_lines(m, origin);
    let locals = texts_of(needed(m.local_types, types_of(members_of(m))));
    let head: Seq<Text> = if header.len() > 0 {
        seq![block(header)]
    } else {
        Seq::empty()
    };
    let copied: Seq<Text> = if locals.len() > 0 {
        seq![block(locals)]
    } else {
        Seq::empty()
    };
    seq![leaf_head(m.file)] + head + copied + seq![block(public_lines(m)), "return {}\n"@]
}

/// The leaf of a module at `origin`.
pub open spec fn leaf_text(m: ModuleView, origin: Text) -> Text {
    text::joined(leaf_blocks(m, origin), "\n"@)
}

/// Whether a field of that name is in the list.
fn has_field(fields: &Vec<Field>, name: &str) -> (r: bool)
    ensures
        r == table::keys(fields.deep_view()).contains(name@),
{
    let ghost names = table::keys(fields.deep_view());
    let mut i: usize = 0;
    while i < fields.len()
        invariant
            names == table::keys(fields.deep_view()),
            i <= fields@.len(),
            forall|j: int| 0 <= j < i ==> #[trigger] names[j] != name@,
        decreases fields.len() - i,
    {
        assert(names[i as int] == fields@[i as int].name@);
        if same(fields[i].name.as_str(), name) {
            return true;
        }
        i = i + 1;
    }
    false
}

/// The members of a module's public type.
fn members(m: &Module) -> (r: Vec<(String, String)>)
    ensures
        r.deep_view() == members_of(m.deep_view()),
{
    let ghost data = m.deep_view();
    let mut out: Vec<(String, String)> = Vec::new();
    if same(m.kind.as_str(), "Component") && !has_field(&m.fields, "Instance") {
        text::push(&mut out, (copy("Instance"), copy("Instance")));
    }
    let ghost instance = out.deep_view();
    let mut f: usize = 0;
    while f < m.fields.len()
        invariant
            data == m.deep_view(),
            f <= m.fields@.len(),
            out.deep_view() =~= instance + data.fields.take(f as int),
        decreases m.fields.len() - f,
    {
        text::push(&mut out, (copy(m.fields[f].name.as_str()), copy(m.fields[f].ty.as_str())));
        f = f + 1;
    }
    assert(data.fields.take(f as int) =~= data.fields);
    let ghost most = out.deep_view();
    let mut k: usize = 0;
    while k < m.methods.len()
        invariant
            data == m.deep_view(),
            k <= m.methods@.len(),
            out.deep_view() =~= most + data.methods.take(k as int),
        decreases m.methods.len() - k,
    {
        text::push(
            &mut out,
            (copy(m.methods[k].name.as_str()), copy(m.methods[k].signature.as_str())),
        );
        k = k + 1;
    }
    assert(data.methods.take(k as int) =~= data.methods);
    out
}

/// A local type of its own with the same text.
fn copy_type(t: &LocalType) -> (r: LocalType)
    ensures
        r.deep_view() == t.deep_view(),
{
    LocalType { name: copy(t.name.as_str()), text: copy(t.text.as_str()) }
}

/// One pass over the local types: takes those that are named, and returns the
/// others.
fn sweep(
    stale: &Vec<LocalType>,
    target: &mut Vec<String>,
    locals: &mut Vec<LocalType>,
) -> (r: Vec<LocalType>)
    ensures
        r.deep_view() == swept(stale.deep_view(), old(target).deep_view()).1,
        final(locals).deep_view() == old(locals).deep_view() + swept(
            stale.deep_view(),
            old(target).deep_view(),
        ).0,
        final(target).deep_view() == old(target).deep_view() + texts_of(
            swept(stale.deep_view(), old(target).deep_view()).0,
        ),
{
    let ghost all = stale.deep_view();
    let ghost was = target.deep_view();
    let ghost had = locals.deep_view();
    let mut left: Vec<LocalType> = Vec::new();
    let mut i: usize = 0;
    assert(all.take(0) =~= Seq::empty());
    assert(left.deep_view() =~= Seq::<LocalTypeView>::empty());
    assert(had + Seq::<LocalTypeView>::empty() =~= had);
    assert(was + texts_of(Seq::empty()) =~= was);
    while i < stale.len()
        invariant
            all == stale.deep_view(),
            i <= stale@.len(),
            left.deep_view() == swept(all.take(i as int), was).1,
            locals.deep_view() == had + swept(all.take(i as int), was).0,
            target.deep_view() == was + texts_of(swept(all.take(i as int), was).0),
        decreases stale.len() - i,
    {
        let ghost taken = swept(all.take(i as int), was).0;
        assert(all.take(i + 1).drop_last() =~= all.take(i as int));
        let t = &stale[i];
        if cites(target, t.name.as_str()) {
            text::push(target, copy(t.text.as_str()));
            text::push(locals, copy_type(t));
            assert(had + taken.push(all[i as int]) =~= (had + taken).push(all[i as int]));
            assert(was + texts_of(taken.push(all[i as int])) =~= (was + texts_of(taken)).push(
                all[i as int].text,
            ));
        } else {
            text::push(&mut left, copy_type(t));
        }
        i = i + 1;
    }
    assert(all.take(i as int) =~= all);
    left
}

/// The local types that the texts need; the texts grow by theirs.
fn needed_types(types: &Vec<LocalType>, target: &mut Vec<String>) -> (r: Vec<LocalType>)
    ensures
        r.deep_view() == needed(types.deep_view(), old(target).deep_view()),
        final(target).deep_view() == old(target).deep_view() + texts_of(
            needed(types.deep_view(), old(target).deep_view()),
        ),
{
    let ghost all = types.deep_view();
    let ghost was = target.deep_view();
    let mut locals: Vec<LocalType> = Vec::new();
    let mut stale = sweep(types, target, &mut locals);
    let mut grew = locals.len() > 0;
    proof {
        lemma_swept_len(all, was);
        let taken = swept(all, was).0;
        assert(locals.deep_view() =~= taken);
        if taken.len() == 0 {
            assert(texts_of(taken) =~= Seq::empty());
            assert(was + texts_of(taken) =~= was);
        }
    }
    while grew
        invariant
            target.deep_view() == was + texts_of(locals.deep_view()),
            grew ==> needed(all, was) == locals.deep_view() + needed(
                stale.deep_view(),
                target.deep_view(),
            ),
            !grew ==> needed(all, was) == locals.deep_view(),
        decreases stale@.len(), (if grew { 1int } else { 0int }),
    {
        let ghost had = locals.deep_view();
        let ghost seen = target.deep_view();
        let ghost before = stale.deep_view();
        let ghost taken = swept(before, seen).0;
        let count = locals.len();
        proof {
            lemma_swept_len(before, seen);
        }
        stale = sweep(&stale, target, &mut locals);
        grew = locals.len() > count;
        proof {
            assert(texts_of(had + taken) =~= texts_of(had) + texts_of(taken));
            assert(was + texts_of(had + taken) =~= was + texts_of(had) + texts_of(taken));
            if taken.len() == 0 {
                assert(had + taken =~= had);
                assert(had + needed(before, seen) =~= had);
            } else {
                assert(had + (taken + needed(stale.deep_view(), target.deep_view())) =~= had
                    + taken + needed(stale.deep_view(), target.deep_view()));
            }
        }
    }
    locals
}

/// More texts name at least the words that fewer name.
proof fn lemma_cited_more(some: Seq<Text>, more: Seq<Text>, name: Text)
    requires
        cited(some, name),
    ensures
        cited(some + more, name),
{
    let k = choose|k: int| 0 <= k < some.len() && names_word(#[trigger] some[k], name);
    assert((some + more)[k] == some[k]);
}

/// What a pass takes is named, and what it leaves was there before.
proof fn lemma_swept(stale: Seq<LocalTypeView>, target: Seq<Text>)
    ensures
        ({
            let (taken, left) = swept(stale, target);
            &&& forall|t: LocalTypeView|
                #![trigger stale.contains(t)]
                stale.contains(t) <==> taken.contains(t) || left.contains(t)
            &&& forall|t: LocalTypeView| #[trigger]
                taken.contains(t) ==> cited(target + texts_of(taken), t.name)
        }),
    decreases stale.len(),
{
    if stale.len() > 0 {
        let fewer = stale.drop_last();
        let last = stale.last();
        lemma_swept(fewer, target);
        let (taken0, left0) = swept(fewer, target);
        let (taken, left) = swept(stale, target);
        assert(stale =~= fewer.push(last));
        assert forall|t: LocalTypeView| #[trigger] stale.contains(t) <==> taken.contains(t)
            || left.contains(t) by {
            lemma_contains_push(fewer, last, t);
            lemma_contains_push(taken0, last, t);
            lemma_contains_push(left0, last, t);
            assert(fewer.contains(t) <==> taken0.contains(t) || left0.contains(t));
        }
        assert forall|t: LocalTypeView| #[trigger] taken.contains(t) implies cited(
            target + texts_of(taken),
            t.name,
        ) by {
            if cited(target + texts_of(taken0), last.name) {
                lemma_contains_push(taken0, last, t);
                lemma_cited_more(target + texts_of(taken0), seq![last.text], t.name);
                assert(target + texts_of(taken) =~= target + texts_of(taken0) + seq![last.text]);
            }
        }
    }
}

proof fn lemma_contains_push<T>(s: Seq<T>, x: T, t: T)
    ensures
        s.push(x).contains(t) <==> s.contains(t) || t == x,
{
    if s.contains(t) {
        let k = choose|k: int| 0 <= k < s.len() && s[k] == t;
        assert(s.push(x)[k] == t);
    }
    assert(s.push(x)[s.len() as int] == x);
    if s.push(x).contains(t) && t != x {
        let k = choose|k: int| 0 <= k < s.push(x).len() && s.push(x)[k] == t;
        assert(s[k] == t);
    }
}

/// Where a pass takes nothing, nothing that it left is named.
proof fn lemma_swept_none(stale: Seq<LocalTypeView>, target: Seq<Text>)
    requires
        swept(stale, target).0.len() == 0,
    ensures
        swept(stale, target).1 == stale,
        forall|t: LocalTypeView| #[trigger] stale.contains(t) ==> !cited(target, t.name),
    decreases stale.len(),
{
    if stale.len() > 0 {
        let fewer = stale.drop_last();
        lemma_swept_none(fewer, target);
        assert(stale =~= fewer.push(stale.last()));
        assert(target + texts_of(Seq::empty()) =~= target);
        assert(swept(fewer, target).0 =~= Seq::empty());
        assert forall|t: LocalTypeView| #[trigger] stale.contains(t) implies !cited(
            target,
            t.name,
        ) by {
            lemma_contains_push(fewer, stale.last(), t);
        }
    }
}

/// A text with `w` behind every line feed.
pub open spec fn deepened_all(s: Text, w: Text) -> Text
    decreases s.len(),
{
    if s.len() == 0 {
        s
    } else if s.last() == '\n' {
        deepened_all(s.drop_last(), w).push('\n') + w
    } else {
        deepened_all(s.drop_last(), w).push(s.last())
    }
}

/// A text with `w` put before every line but the first.
pub open spec fn deepened(s: Text, w: Text) -> Text {
    if s.len() == 0 {
        s
    } else {
        deepened_all(s.drop_last(), w).push(s.last())
    }
}

/// Spaces and tabs.
pub open spec fn is_indentation(w: Text) -> bool {
    forall|i: int| 0 <= i < w.len() ==> #[trigger] w[i] == ' ' || w[i] == '\t'
}

/// `w` before each of some texts.
spec fn behind(w: Text, lines: Seq<Text>) -> Seq<Text> {
    lines.map_values(|line: Text| w + line)
}

/// `w` before all of some texts but the first.
spec fn behind_first(w: Text, lines: Seq<Text>) -> Seq<Text> {
    Seq::new(
        lines.len(),
        |i: int|
            if i == 0 {
                lines[i]
            } else {
                w + lines[i]
            },
    )
}

proof fn lemma_deepened_pieces(s: Text, w: Text)
    requires
        is_indentation(w),
    ensures
        text::split(deepened_all(s, w), '\n') == behind_first(w, text::split(s, '\n')),
    decreases s.len(),
{
    let all = deepened_all(s, w);
    let pieces = text::split(s, '\n');
    if s.len() == 0 {
        assert(text::split(all, '\n') =~= behind_first(w, pieces));
    } else {
        let some = s.drop_last();
        let before = text::split(some, '\n');
        lemma_deepened_pieces(some, w);
        text::lemma_split_nonempty(some, '\n');
        let lead = deepened_all(some, w);
        if s.last() == '\n' {
            text::lemma_split_cat(lead, '\n', w);
            text::lemma_split_plain(w, '\n');
            assert(w + Seq::<char>::empty() =~= w);
            assert(behind_first(w, pieces) =~= behind_first(w, before).push(w));
            assert(text::split(all, '\n') =~= behind_first(w, before) + seq![w]);
        } else {
            assert(all.drop_last() =~= lead);
            let last = before.last();
            assert((w + last).push(s.last()) =~= w + last.push(s.last()));
            assert(text::split(all, '\n') =~= behind_first(w, pieces));
        }
    }
}

proof fn lemma_deepened_lines(s: Text, w: Text)
    requires
        is_indentation(w),
    ensures
        text::lines(deepened(s, w)) == behind_first(w, text::lines(s)),
{
    if s.len() == 0 {
        assert(text::lines(s) =~= Seq::empty());
        assert(behind_first(w, text::lines(s)) =~= Seq::empty());
    } else {
        let some = s.drop_last();
        let all = deepened(s, w);
        let lead = deepened_all(some, w);
        let c = s.last();
        assert(all.drop_last() =~= lead);
        lemma_deepened_pieces(some, w);
        lemma_deepened_pieces(s, w);
        text::lemma_split_nonempty(some, '\n');
        assert forall|line: Text| #[trigger]
            text::without_return(w + line) == w + text::without_return(line) by {
            if line.len() > 0 {
                assert((w + line).last() == line.last());
                if line.last() == '\r' {
                    assert((w + line).drop_last() =~= w + line.drop_last());
                }
            } else {
                assert(w + line =~= w);
                if w.len() > 0 {
                    assert(w[w.len() - 1] != '\r');
                }
            }
        }
        let a = text::split(s, '\n');
        let b = text::split(all, '\n');
        if c == '\n' {
            assert(a.drop_last() =~= text::split(some, '\n'));
            assert(b.drop_last() =~= text::split(lead, '\n'));
            assert(text::lines(all) =~= behind_first(w, text::lines(s)));
        } else {
            assert(all =~= deepened_all(s, w));
            assert(b == behind_first(w, a));
            assert(a.last().len() > 0);
            assert(b.last().len() > 0);
            assert(text::lines(all) =~= behind_first(w, text::lines(s)));
        }
    }
}

proof fn lemma_deeper_line(w: Text, line: Text, n: int)
    requires
        is_indentation(w),
        n >= 0,
    ensures
        indent(w + line) == w.len() + indent(line),
        indent(line) >= 0,
        blank(w + line) == blank(line),
        drop_bytes(w + line, w.len() + n) == drop_bytes(line, n),
    decreases w.len(),
{
    lemma_indent_is_some(line);
    if w.len() == 0 {
        assert(w + line =~= line);
    } else {
        let less = w.drop_first();
        assert(w[0] == ' ' || w[0] == '\t');
        assert forall|i: int| 0 <= i < less.len() implies #[trigger] less[i] == ' ' || less[i]
            == '\t' by {
            assert(w[i + 1] == ' ' || w[i + 1] == '\t');
        }
        lemma_deeper_line(less, line, n);
        assert((w + line).drop_first() =~= less + line);
        assert((w + line)[0] == w[0]);
    }
}

proof fn lemma_indent_is_some(line: Text)
    ensures
        indent(line) >= 0,
    decreases line.len(),
{
    if line.len() > 0 {
        lemma_indent_is_some(line.drop_first());
    }
}

proof fn lemma_deeper_lines(w: Text, lines: Seq<Text>, n: int, at: Text)
    requires
        is_indentation(w),
        n >= 0,
    ensures
        match common_indent(lines) {
            Some(c) => c >= 0 && common_indent(behind(w, lines)) == Some(c + w.len()),
            None => common_indent(behind(w, lines)) is None && laid_out(behind(w, lines), 0, at)
                == laid_out(lines, 0, at),
        },
        laid_out(behind(w, lines), w.len() + n, at) == laid_out(lines, n, at),
    decreases lines.len(),
{
    if lines.len() > 0 {
        let some = lines.drop_last();
        lemma_deeper_lines(w, some, n, at);
        assert(behind(w, lines).drop_last() =~= behind(w, some));
        lemma_deeper_line(w, lines.last(), n);
    }
}

/// The indentation that a type had where it was written does not show: spaces and
/// tabs before every line but the first change nothing.
pub proof fn law_indentation_does_not_show(ty: Text, w: Text, at: Text)
    requires
        is_indentation(w),
    ensures
        reindented(deepened(ty, w), at) == reindented(ty, at),
{
    lemma_deepened_lines(ty, w);
    let a = text::lines(ty);
    let b = text::lines(deepened(ty, w));
    if a.len() > 0 {
        let rest = a.drop_first();
        assert(b.drop_first() =~= behind(w, rest));
        let n = match common_indent(rest) {
            Some(c) => c,
            None => 0,
        };
        lemma_deeper_lines(w, rest, 0, at);
        lemma_deeper_lines(w, rest, n, at);
    } else if ty.len() > 0 {
        text::lemma_split_nonempty(ty.drop_last(), '\n');
    }
}

proof fn lemma_laid_out_keeps(lines: Seq<Text>, n: int, at: Text, i: int)
    requires
        0 <= i < lines.len(),
    ensures
        laid_out(lines, n, at) == laid_out(lines.take(i), n, at).push('\n') + (if blank(lines[i]) {
            Seq::empty()
        } else {
            at + drop_bytes(lines[i], n)
        }) + laid_out(lines.skip(i + 1), n, at),
    decreases lines.len(),
{
    let some = lines.drop_last();
    if i == lines.len() - 1 {
        assert(lines.take(i) =~= some);
        assert(lines.skip(i + 1) =~= Seq::empty());
        assert(laid_out(lines, n, at) =~= laid_out(lines.take(i), n, at).push('\n') + (if blank(
            lines[i],
        ) {
            Seq::empty()
        } else {
            at + drop_bytes(lines[i], n)
        }) + laid_out(lines.skip(i + 1), n, at));
    } else {
        lemma_laid_out_keeps(some, n, at, i);
        assert(some.take(i) =~= lines.take(i));
        assert(lines.skip(i + 1).drop_last() =~= some.skip(i + 1));
        assert(lines.skip(i + 1).last() == lines.last());
        assert(laid_out(lines, n, at) =~= laid_out(lines.take(i), n, at).push('\n') + (if blank(
            lines[i],
        ) {
            Seq::empty()
        } else {
            at + drop_bytes(lines[i], n)
        }) + laid_out(lines.skip(i + 1), n, at));
    }
}

/// What a type of several lines becomes, line by line: the first line is kept as
/// it is, a blank line comes out empty, and every other line follows `at` without
/// the indentation that they all share, so that what one is indented more than
/// another still shows.
pub proof fn law_lines_keep_their_shape(ty: Text, at: Text, i: int)
    requires
        0 < i < text::lines(ty).len(),
    ensures
        ({
            let rest = text::lines(ty).drop_first();
            let shared = match common_indent(rest) {
                Some(n) => n,
                None => 0,
            };
            let line = text::lines(ty)[i];
            reindented(ty, at) == text::lines(ty)[0] + (laid_out(
                rest.take(i - 1),
                shared,
                at,
            ).push('\n') + (if blank(line) {
                Seq::empty()
            } else {
                at + drop_bytes(line, shared)
            }) + laid_out(rest.skip(i), shared, at))
        }),
{
    let rest = text::lines(ty).drop_first();
    let shared = match common_indent(rest) {
        Some(n) => n,
        None => 0,
    };
    lemma_laid_out_keeps(rest, shared, at, i - 1);
    assert(rest[i - 1] == text::lines(ty)[i]);
}

/// The leaf copies exactly the local types it needs: each one copied is a type
/// of the module that some text of the leaf names, and one that is not copied
/// is named by none.
pub proof fn law_local_types_closed(types: Seq<LocalTypeView>, target: Seq<Text>)
    ensures
        forall|t: LocalTypeView| #[trigger]
            needed(types, target).contains(t) ==> types.contains(t) && cited(
                target + texts_of(needed(types, target)),
                t.name,
            ),
        forall|t: LocalTypeView| #[trigger]
            types.contains(t) ==> needed(types, target).contains(t) || !cited(
                target + texts_of(needed(types, target)),
                t.name,
            ),
    decreases types.len(),
{
    let (taken, left) = swept(types, target);
    let all = needed(types, target);
    lemma_swept(types, target);
    lemma_swept_len(types, target);
    if taken.len() == 0 {
        lemma_swept_none(types, target);
        assert(target + texts_of(Seq::empty()) =~= target);
    } else {
        let more = target + texts_of(taken);
        let rest = needed(left, more);
        law_local_types_closed(left, more);
        assert(target + texts_of(all) =~= more + texts_of(rest));
        assert forall|t: LocalTypeView| #[trigger] all.contains(t) implies types.contains(t)
            && cited(target + texts_of(all), t.name) by {
            let k = choose|k: int| 0 <= k < all.len() && all[k] == t;
            if k < taken.len() {
                assert(taken[k] == t);
                assert(taken.contains(t));
                lemma_cited_more(more, texts_of(rest), t.name);
            } else {
                assert(rest[k - taken.len()] == t);
                assert(rest.contains(t));
            }
        }
        assert forall|t: LocalTypeView| #[trigger] types.contains(t) implies all.contains(t)
            || !cited(target + texts_of(all), t.name) by {
            if taken.contains(t) {
                let k = choose|k: int| 0 <= k < taken.len() && taken[k] == t;
                assert(all[k] == t);
            } else {
                assert(left.contains(t));
                if rest.contains(t) {
                    let k = choose|k: int| 0 <= k < rest.len() && rest[k] == t;
                    assert(all[taken.len() + k] == t);
                }
            }
        }
    }
}

/// What is taken in a pass over types is in every choice of types that has those
/// among them that its texts name.
proof fn lemma_swept_least(
    stale: Seq<LocalTypeView>,
    target: Seq<Text>,
    full: Seq<Text>,
    chosen: Seq<LocalTypeView>,
)
    requires
        forall|x: Text| #[trigger] target.contains(x) ==> full.contains(x),
        forall|x: Text| #[trigger] texts_of(chosen).contains(x) ==> full.contains(x),
        forall|t: LocalTypeView| #[trigger]
            stale.contains(t) && cited(full, t.name) ==> chosen.contains(t),
    ensures
        forall|t: LocalTypeView| #[trigger]
            swept(stale, target).0.contains(t) ==> chosen.contains(t),
    decreases stale.len(),
{
    if stale.len() > 0 {
        let fewer = stale.drop_last();
        let t = stale.last();
        let taken = swept(fewer, target).0;
        assert forall|u: LocalTypeView| #[trigger]
            fewer.contains(u) && cited(full, u.name) implies chosen.contains(u) by {
            let k = choose|k: int| 0 <= k < fewer.len() && fewer[k] == u;
            assert(stale[k] == u);
            assert(stale.contains(u));
        }
        lemma_swept_least(fewer, target, full, chosen);
        if cited(target + texts_of(taken), t.name) {
            lemma_texts_within(taken, chosen, full);
            lemma_cited_within(target, texts_of(taken), full, t.name);
            assert(stale[stale.len() - 1] == t);
            assert(stale.contains(t));
            assert forall|u: LocalTypeView| #[trigger] taken.push(t).contains(u) implies
                chosen.contains(u) by {
                lemma_contains_push(taken, t, u);
            }
        }
    }
}

/// The texts of types that are all chosen are among the texts of those chosen.
proof fn lemma_texts_within(
    taken: Seq<LocalTypeView>,
    chosen: Seq<LocalTypeView>,
    full: Seq<Text>,
)
    requires
        forall|t: LocalTypeView| #[trigger] taken.contains(t) ==> chosen.contains(t),
        forall|x: Text| #[trigger] texts_of(chosen).contains(x) ==> full.contains(x),
    ensures
        forall|x: Text| #[trigger] texts_of(taken).contains(x) ==> full.contains(x),
{
    assert forall|x: Text| #[trigger] texts_of(taken).contains(x) implies full.contains(x) by {
        let k = choose|k: int| 0 <= k < texts_of(taken).len() && texts_of(taken)[k] == x;
        assert(taken.contains(taken[k]));
        let j = choose|j: int| 0 <= j < chosen.len() && chosen[j] == taken[k];
        assert(texts_of(chosen)[j] == x);
        assert(texts_of(chosen).contains(x));
    }
}

/// What two lists of texts name, a list that holds both names.
proof fn lemma_cited_within(a: Seq<Text>, b: Seq<Text>, full: Seq<Text>, name: Text)
    requires
        forall|x: Text| #[trigger] a.contains(x) ==> full.contains(x),
        forall|x: Text| #[trigger] b.contains(x) ==> full.contains(x),
        cited(a + b, name),
    ensures
        cited(full, name),
{
    let both = a + b;
    let k = choose|k: int| 0 <= k < both.len() && names_word(#[trigger] both[k], name);
    if k < a.len() {
        assert(a[k] == both[k]);
        assert(a.contains(both[k]));
    } else {
        assert(b[k - a.len()] == both[k]);
        assert(b.contains(both[k]));
    }
    let j = choose|j: int| 0 <= j < full.len() && full[j] == both[k];
    assert(names_word(full[j], name));
}

proof fn lemma_needed_least(
    stale: Seq<LocalTypeView>,
    target: Seq<Text>,
    full: Seq<Text>,
    chosen: Seq<LocalTypeView>,
)
    requires
        forall|x: Text| #[trigger] target.contains(x) ==> full.contains(x),
        forall|x: Text| #[trigger] texts_of(chosen).contains(x) ==> full.contains(x),
        forall|t: LocalTypeView| #[trigger]
            stale.contains(t) && cited(full, t.name) ==> chosen.contains(t),
    ensures
        forall|t: LocalTypeView| #[trigger]
            needed(stale, target).contains(t) ==> chosen.contains(t),
    decreases stale.len(),
{
    let (taken, left) = swept(stale, target);
    lemma_swept_least(stale, target, full, chosen);
    lemma_swept(stale, target);
    lemma_swept_len(stale, target);
    if taken.len() > 0 {
        let more = target + texts_of(taken);
        lemma_texts_within(taken, chosen, full);
        assert forall|x: Text| #[trigger] more.contains(x) implies full.contains(x) by {
            let k = choose|k: int| 0 <= k < more.len() && more[k] == x;
            if k < target.len() {
                assert(target[k] == x);
                assert(target.contains(x));
            } else {
                assert(texts_of(taken)[k - target.len()] == x);
                assert(texts_of(taken).contains(x));
            }
        }
        assert forall|t: LocalTypeView| #[trigger]
            left.contains(t) && cited(full, t.name) implies chosen.contains(t) by {
            assert(stale.contains(t));
        }
        lemma_needed_least(left, more, full, chosen);
        let rest = needed(left, more);
        assert forall|t: LocalTypeView| #[trigger] (taken + rest).contains(t) implies
            chosen.contains(t) by {
            let k = choose|k: int| 0 <= k < (taken + rest).len() && (taken + rest)[k] == t;
            if k < taken.len() {
                assert(taken[k] == t);
                assert(taken.contains(t));
            } else {
                assert(rest[k - taken.len()] == t);
                assert(rest.contains(t));
            }
        }
    }
}

/// The leaf copies no more local types than it must: every choice of types that
/// holds those of the module that the texts, or the types chosen, name holds all
/// that are copied.
pub proof fn law_local_types_least(
    types: Seq<LocalTypeView>,
    target: Seq<Text>,
    chosen: Seq<LocalTypeView>,
)
    requires
        forall|t: LocalTypeView| #[trigger]
            types.contains(t) && cited(target + texts_of(chosen), t.name) ==> chosen.contains(t),
    ensures
        forall|t: LocalTypeView| #[trigger]
            needed(types, target).contains(t) ==> chosen.contains(t),
{
    let full = target + texts_of(chosen);
    assert forall|x: Text| #[trigger] target.contains(x) implies full.contains(x) by {
        let k = choose|k: int| 0 <= k < target.len() && target[k] == x;
        assert(full[k] == x);
    }
    assert forall|x: Text| #[trigger] texts_of(chosen).contains(x) implies full.contains(x) by {
        let k = choose|k: int| 0 <= k < texts_of(chosen).len() && texts_of(chosen)[k] == x;
        assert(full[target.len() + k] == x);
    }
    lemma_needed_least(types, target, full, chosen);
}

/// Every path that the leaf requires starts at a name that the leaf declares:
/// one of the module's services, or a root added for it; and no root is
/// declared twice.
pub proof fn law_roots_declared(exprs: Seq<Text>, declared: Seq<Text>)
    ensures
        forall|k: int|
            0 <= k < exprs.len() ==> {
                let root = text::head_of(#[trigger] exprs[k], '.');
                root.len() == 0 || declared.contains(root) || extra_roots(exprs, declared).contains(
                    root,
                )
            },
        extra_roots(exprs, declared).no_duplicates(),
        forall|k: int|
            0 <= k < extra_roots(exprs, declared).len() ==> !declared.contains(
                #[trigger] extra_roots(exprs, declared)[k],
            ),
    decreases exprs.len(),
{
    if exprs.len() > 0 {
        let fewer = exprs.drop_last();
        law_roots_declared(fewer, declared);
        let some = extra_roots(fewer, declared);
        let all = extra_roots(exprs, declared);
        let last = text::head_of(exprs.last(), '.');
        assert forall|k: int| 0 <= k < exprs.len() implies {
            let root = text::head_of(#[trigger] exprs[k], '.');
            root.len() == 0 || declared.contains(root) || all.contains(root)
        } by {
            let root = text::head_of(exprs[k], '.');
            lemma_contains_push(some, last, root);
            if k < exprs.len() - 1 {
                assert(fewer[k] == exprs[k]);
            }
        }
        if all != some {
            assert forall|i: int, j: int| 0 <= i < j < all.len() implies all[i] != all[j] by {
                if j == some.len() {
                    assert(some.contains(some[i]));
                }
            }
        }
    }
}

/// A component's public type always has an `Instance`.
pub proof fn law_component_has_instance(m: ModuleView)
    requires
        m.kind == "Component"@,
    ensures
        table::keys(members_of(m)).contains("Instance"@),
{
    let all = members_of(m);
    if table::keys(m.fields).contains("Instance"@) {
        let names = table::keys(m.fields);
        let k = choose|k: int| 0 <= k < names.len() && names[k] == "Instance"@;
        assert(all[k] == m.fields[k]);
        assert(table::keys(all)[k] == "Instance"@);
    } else {
        assert(all[0] == ("Instance"@, "Instance"@));
        assert(table::keys(all)[0] == "Instance"@);
    }
}

/// A path to the module itself is the module's own path, and `Parent` is the
/// path of what holds it.
pub proof fn law_require_of_script(origin: Text)
    ensures
        ({
            let segs = text::split(origin, '.').filter(|p: Text| p.len() > 0);
            &&& rewritten("script"@, origin) == text::joined(segs, "."@)
            &&& segs.len() > 0 ==> rewritten("script.Parent"@, origin) == text::joined(
                segs.drop_last(),
                "."@,
            )
        }),
{
    let segs = text::split(origin, '.').filter(|p: Text| p.len() > 0);
    reveal_strlit("script");
    reveal_strlit("script.");
    reveal_strlit("script.Parent");
    reveal_strlit("Parent");
    let a = "script"@;
    let b = "script.Parent"@;
    text::lemma_split_plain(a, '.');
    assert(text::split(a, '.').drop_first() =~= Seq::empty());
    let p = "Parent"@;
    text::lemma_split_plain(p, '.');
    text::lemma_split_cat(a, '.', p);
    assert(b =~= a.push('.') + p);
    let steps = text::split(b, '.').drop_first();
    assert(steps =~= seq![p]);
    assert(steps.drop_last() =~= Seq::empty());
    assert("script."@.is_prefix_of(b)) by {
        assert(b.subrange(0, 7) =~= "script."@);
    }
}

/// `local alias = game:GetService("service")`.
pub fn line_of_service(alias: &str, service: &str) -> (r: String)
    ensures
        r@ == service_line(alias@, service@),
{
    copy("local ").concat(alias).concat(" = game:GetService(\"").concat(service).concat("\")")
}

/// `local alias = require(expr)`.
pub fn line_of_require(alias: &str, expr: &str) -> (r: String)
    ensures
        r@ == require_line(alias@, expr@),
{
    copy("local ").concat(alias).concat(" = require(").concat(expr).concat(")")
}

/// Lines with a line feed after each.
pub fn block_of(lines: &Vec<String>) -> (r: String)
    ensures
        r@ == block(lines.deep_view()),
{
    text::join(lines, "\n").concat("\n")
}

/// The requires that the texts reach through, rewritten.
fn kept_requires(m: &Module, texts: &Vec<String>, origin: &str) -> (r: (Vec<String>, Vec<String>))
    requires
        texts.deep_view() == leaf_texts(m.deep_view()),
    ensures
        r.0.deep_view() == leaf_requires(m.deep_view()).map_values(|i: ImportView| i.alias),
        r.1.deep_view() == leaf_exprs(m.deep_view(), origin@),
{
    let ghost all = m.requires.deep_view();
    let ghost keep = |i: ImportView| alias_cited(leaf_texts(m.deep_view()), i.alias);
    let ghost name = |i: ImportView| i.alias;
    let ghost target = |i: ImportView| rewritten(i.expr, origin@);
    let mut aliases: Vec<String> = Vec::new();
    let mut exprs: Vec<String> = Vec::new();
    let mut k: usize = 0;
    proof {
        assert(all.take(0) =~= Seq::empty());
        reveal(Seq::filter);
        assert(aliases.deep_view() =~= all.take(0).filter(keep).map_values(name));
        assert(exprs.deep_view() =~= all.take(0).filter(keep).map_values(target));
    }
    while k < m.requires.len()
        invariant
            all == m.requires.deep_view(),
            keep == (|i: ImportView| alias_cited(leaf_texts(m.deep_view()), i.alias)),
            name == (|i: ImportView| i.alias),
            target == (|i: ImportView| rewritten(i.expr, origin@)),
            texts.deep_view() == leaf_texts(m.deep_view()),
            k <= m.requires@.len(),
            aliases.deep_view() == all.take(k as int).filter(keep).map_values(name),
            exprs.deep_view() == all.take(k as int).filter(keep).map_values(target),
        decreases m.requires.len() - k,
    {
        let ghost some = all.take(k as int).filter(keep);
        proof {
            all.take(k as int).lemma_filter_push(all[k as int], keep);
            assert(all.take(k as int).push(all[k as int]) =~= all.take(k + 1));
            some.lemma_push_map_commute(name, all[k as int]);
            some.lemma_push_map_commute(target, all[k as int]);
        }
        let r = &m.requires[k];
        if cites_alias(texts, r.alias.as_str()) {
            text::push(&mut aliases, copy(r.alias.as_str()));
            text::push(&mut exprs, rewrite_require(r.expr.as_str(), origin));
        }
        k = k + 1;
    }
    assert(all.take(k as int) =~= all);
    (aliases, exprs)
}

/// Whether some path starts at the service.
fn is_start(exprs: &Vec<String>, alias: &str) -> (r: bool)
    ensures
        r == starts_at(exprs.deep_view(), alias@),
{
    let ghost all = exprs.deep_view();
    let mut prefix = copy(alias);
    prefix.push('.');
    let mut k: usize = 0;
    while k < exprs.len()
        invariant
            all == exprs.deep_view(),
            prefix@ == alias@.push('.'),
            k <= exprs@.len(),
            forall|j: int| 0 <= j < k ==> !alias@.push('.').is_prefix_of(#[trigger] all[j]),
        decreases exprs.len() - k,
    {
        if text::starts_with(exprs[k].as_str(), prefix.as_str()) {
            assert(alias@.push('.').is_prefix_of(all[k as int]));
            return true;
        }
        assert(!alias@.push('.').is_prefix_of(all[k as int]));
        k = k + 1;
    }
    false
}

/// The lines before the types.
fn header(m: &Module, texts: &Vec<String>, origin: &str) -> (r: Vec<String>)
    requires
        texts.deep_view() == leaf_texts(m.deep_view()),
    ensures
        r.deep_view() == header_lines(m.deep_view(), origin@),
{
    let ghost data = m.deep_view();
    let (aliases, exprs) = kept_requires(m, texts, origin);
    let ghost paths = exprs.deep_view();
    let ghost all = data.services;
    let ghost keep = |s: ServiceView| starts_at(paths, s.alias);
    let ghost name = |s: ServiceView| s.alias;
    let ghost line = |s: ServiceView| service_line(s.alias, s.service);
    let mut lines: Vec<String> = Vec::new();
    let mut declared: Vec<String> = Vec::new();
    let mut k: usize = 0;
    proof {
        assert(all.take(0) =~= Seq::empty());
        reveal(Seq::filter);
        assert(lines.deep_view() =~= all.take(0).filter(keep).map_values(line));
        assert(declared.deep_view() =~= all.take(0).filter(keep).map_values(name));
    }
    while k < m.services.len()
        invariant
            all == m.services.deep_view(),
            paths == exprs.deep_view(),
            keep == (|s: ServiceView| starts_at(paths, s.alias)),
            name == (|s: ServiceView| s.alias),
            line == (|s: ServiceView| service_line(s.alias, s.service)),
            k <= m.services@.len(),
            declared.deep_view() == all.take(k as int).filter(keep).map_values(name),
            lines.deep_view() == all.take(k as int).filter(keep).map_values(line),
        decreases m.services.len() - k,
    {
        let ghost some = all.take(k as int).filter(keep);
        proof {
            all.take(k as int).lemma_filter_push(all[k as int], keep);
            assert(all.take(k as int).push(all[k as int]) =~= all.take(k + 1));
            some.lemma_push_map_commute(name, all[k as int]);
            some.lemma_push_map_commute(line, all[k as int]);
        }
        let s = &m.services[k];
        if is_start(&exprs, s.alias.as_str()) {
            text::push(&mut declared, copy(s.alias.as_str()));
            text::push(&mut lines, line_of_service(s.alias.as_str(), s.service.as_str()));
        }
        k = k + 1;
    }
    assert(all.take(k as int) =~= all);
    let ghost services = leaf_services(data, paths);
    assert(declared.deep_view() == aliases_of(services));
    let ghost first = lines.deep_view();
    let ghost root_line = |root: Text| service_line(root, root);
    let mut extras: Vec<String> = Vec::new();
    let mut e: usize = 0;
    proof {
        assert(paths.take(0) =~= Seq::empty());
        assert(extras.deep_view() =~= Seq::<Text>::empty());
        assert(first =~= first + extras.deep_view().map_values(root_line));
    }
    while e < exprs.len()
        invariant
            paths == exprs.deep_view(),
            declared.deep_view() == aliases_of(services),
            root_line == (|root: Text| service_line(root, root)),
            e <= exprs@.len(),
            extras.deep_view() == extra_roots(paths.take(e as int), aliases_of(services)),
            lines.deep_view() == first + extras.deep_view().map_values(root_line),
        decreases exprs.len() - e,
    {
        assert(paths.take(e + 1).drop_last() =~= paths.take(e as int));
        let root = text::head(exprs[e].as_str(), '.');
        if !root.as_str().is_empty() && !text::holds(&declared, root.as_str()) && !text::holds(
            &extras,
            root.as_str(),
        ) {
            proof {
                extras.deep_view().lemma_push_map_commute(root_line, root@);
                assert((first + extras.deep_view().map_values(root_line)).push(
                    service_line(root@, root@),
                ) =~= first + extras.deep_view().map_values(root_line).push(
                    service_line(root@, root@),
                ));
            }
            text::push(&mut lines, line_of_service(root.as_str(), root.as_str()));
            text::push(&mut extras, root);
        }
        e = e + 1;
    }
    assert(paths.take(e as int) =~= paths);
    let ghost most = lines.deep_view();
    let ghost kept = leaf_requires(data);
    let ghost last = kept.map_values(
        |r: ImportView| require_line(r.alias, rewritten(r.expr, origin@)),
    );
    assert(aliases.deep_view().len() == kept.len());
    assert(exprs.deep_view().len() == kept.len());
    let mut i: usize = 0;
    while i < aliases.len()
        invariant
            aliases.deep_view() == kept.map_values(|i: ImportView| i.alias),
            exprs.deep_view() == kept.map_values(|r: ImportView| rewritten(r.expr, origin@)),
            last == kept.map_values(
                |r: ImportView| require_line(r.alias, rewritten(r.expr, origin@)),
            ),
            i <= aliases@.len(),
            aliases@.len() == kept.len(),
            exprs@.len() == kept.len(),
            lines.deep_view() =~= most + last.take(i as int),
        decreases aliases.len() - i,
    {
        proof {
            assert(aliases.deep_view()[i as int] == kept[i as int].alias);
            assert(exprs.deep_view()[i as int] == rewritten(kept[i as int].expr, origin@));
        }
        text::push(&mut lines, line_of_require(aliases[i].as_str(), exprs[i].as_str()));
        i = i + 1;
    }
    assert(last.take(i as int) =~= last);
    lines
}

/// The public type.
fn public_type(members: &Vec<(String, String)>) -> (r: Vec<String>)
    ensures
        r.deep_view() == seq!["export type Public = {"@] + members.deep_view().map_values(
            |member: (Text, Text)| member_line(member),
        ) + seq!["}"@],
{
    let ghost all = members.deep_view();
    let ghost rows = all.map_values(|member: (Text, Text)| member_line(member));
    let mut body: Vec<String> = Vec::new();
    text::push(&mut body, copy("export type Public = {"));
    let ghost opening = body.deep_view();
    assert(opening =~= seq!["export type Public = {"@]);
    let mut i: usize = 0;
    while i < members.len()
        invariant
            all == members.deep_view(),
            rows == all.map_values(|member: (Text, Text)| member_line(member)),
            i <= members@.len(),
            body.deep_view() =~= opening + rows.take(i as int),
        decreases members.len() - i,
    {
        let line = copy("\t").concat(members[i].0.as_str()).concat(": ").concat(
            reindent(members[i].1.as_str(), "\t").as_str(),
        ).concat(",");
        text::push(&mut body, line);
        i = i + 1;
    }
    assert(rows.take(i as int) =~= rows);
    text::push(&mut body, copy("}"));
    assert(body.deep_view() =~= opening + rows + seq!["}"@]);
    body
}

/// The leaf of a module, given the module's path in the game.
pub fn emit(m: &Module, origin: &str) -> (r: String)
    ensures
        r@ == leaf_text(m.deep_view(), origin@),
{
    let ghost data = m.deep_view();
    let members = members(m);
    let mut texts: Vec<String> = Vec::new();
    let mut i: usize = 0;
    while i < members.len()
        invariant
            members.deep_view() == members_of(data),
            i <= members@.len(),
            texts.deep_view() =~= types_of(members_of(data)).take(i as int),
        decreases members.len() - i,
    {
        assert(members_of(data)[i as int] == members@[i as int].deep_view());
        text::push(&mut texts, copy(members[i].1.as_str()));
        i = i + 1;
    }
    assert(texts.deep_view() =~= types_of(members_of(data)));
    let locals = needed_types(&m.local_types, &mut texts);
    let header = header(m, &texts, origin);

    let mut blocks: Vec<String> = Vec::new();
    text::push(
        &mut blocks,
        copy("--!strict\n-- GERADO por modux a partir de ").concat(m.file.as_str()).concat(
            "\n-- NAO EDITAR A MAO: a proxima geracao sobrescreve.\n",
        ),
    );
    if header.len() > 0 {
        text::push(&mut blocks, block_of(&header));
    }
    if locals.len() > 0 {
        let mut copied: Vec<String> = Vec::new();
        let ghost want = texts_of(locals.deep_view());
        let mut k: usize = 0;
        while k < locals.len()
            invariant
                want == texts_of(locals.deep_view()),
                k <= locals@.len(),
                copied.deep_view() =~= want.take(k as int),
            decreases locals.len() - k,
        {
            text::push(&mut copied, copy(locals[k].text.as_str()));
            k = k + 1;
        }
        assert(want.take(k as int) =~= want);
        text::push(&mut blocks, block_of(&copied));
    }
    text::push(&mut blocks, block_of(&public_type(&members)));
    text::push(&mut blocks, copy("return {}\n"));
    assert(blocks.deep_view() =~= leaf_blocks(data, origin@));
    text::join(&blocks, "\n")
}

/// Texts with something between them begin with the first.
proof fn lemma_joined_begins(parts: Seq<Text>, sep: Text)
    requires
        parts.len() > 1,
    ensures
        (parts[0] + sep).is_prefix_of(text::joined(parts, sep)),
    decreases parts.len(),
{
    let some = parts.drop_last();
    if parts.len() == 2 {
        assert(text::joined(some, sep) =~= parts[0]);
    } else {
        lemma_joined_begins(some, sep);
        assert(some[0] == parts[0]);
    }
    assert((parts[0] + sep).is_prefix_of(text::joined(some, sep) + sep));
    let all = text::joined(parts, sep);
    assert(all.take((parts[0] + sep).len() as int) =~= parts[0] + sep);
}

/// Every leaf begins with the file that its module was read from, and with the
/// word that it is not to be edited by hand.
pub proof fn law_leaf_names_its_module(m: ModuleView, origin: Text)
    ensures
        (leaf_head(m.file) + "\n"@).is_prefix_of(leaf_text(m, origin)),
{
    lemma_joined_begins(leaf_blocks(m, origin), "\n"@);
}

/// The public type of a module has every field and every method that was read,
/// with its type.
pub proof fn law_leaf_has_every_member(m: ModuleView, member: (Text, Text))
    requires
        m.fields.contains(member) || m.methods.contains(member),
    ensures
        public_lines(m).contains(member_line(member)),
{
    let all = members_of(m);
    let lines = public_lines(m);
    let own = all.len() - m.fields.len() - m.methods.len();
    let i = if m.fields.contains(member) {
        own + choose|i: int| 0 <= i < m.fields.len() && m.fields[i] == member
    } else {
        own + m.fields.len() + choose|i: int| 0 <= i < m.methods.len() && m.methods[i] == member
    };
    assert(all[i] == member);
    assert(lines[i + 1] == member_line(member));
}

/// A require comes along just where the leaf reaches through it: by its name and
/// a dot, or alone inside `typeof`.
pub proof fn law_require_comes_along(m: ModuleView, r: ImportView)
    ensures
        leaf_requires(m).contains(r) <==> m.requires.contains(r) && alias_cited(
            leaf_texts(m),
            r.alias,
        ),
{
    let keep = |r: ImportView| alias_cited(leaf_texts(m), r.alias);
    let kept = m.requires.filter(keep);
    if kept.contains(r) {
        m.requires.lemma_filter_contains_rev(keep, r);
        let i = choose|i: int| 0 <= i < kept.len() && kept[i] == r;
        m.requires.lemma_filter_pred(keep, i);
    }
    if m.requires.contains(r) && keep(r) {
        let i = choose|i: int| 0 <= i < m.requires.len() && m.requires[i] == r;
        m.requires.lemma_filter_contains(keep, i);
    }
}

} // verus!
