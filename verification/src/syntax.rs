//! Parsing a file, and the text of a node.

use vstd::prelude::*;

use crate::tree::{
    self, Fault, FaultView, Lexed, LexedView, Parsed, ParsedView, Rendered, RenderedView,
};
use crate::text::{self, chars_of, copy, Text};

verus! {

/// What is wrong with a file that does not parse.
#[derive(Debug)]
pub struct Syntax {
    pub file: String,
    pub line: Option<usize>,
    pub detail: String,
}

/// What a `Syntax` holds.
pub struct SyntaxView {
    pub file: Text,
    pub line: Option<usize>,
    pub detail: Text,
}

impl DeepView for Syntax {
    type V = SyntaxView;

    open spec fn deep_view(&self) -> SyntaxView {
        SyntaxView { file: self.file@, line: self.line, detail: self.detail@ }
    }
}

/// What is wrong with a file, in words.
pub open spec fn told(s: SyntaxView) -> Text {
    s.file + ":\n  "@ + s.detail
}

impl Syntax {
    /// The file, and on the next line what is wrong with it.
    pub fn message(&self) -> (r: String)
        ensures
            r@ == self.file@ + ":\n  "@ + self.detail@,
            r@ == told(self.deep_view()),
    {
        let mut out = copy(self.file.as_str());
        out.append(":\n  ");
        out.append(self.detail.as_str());
        out
    }
}

/// A decimal digit.
pub open spec fn is_digit(c: char) -> bool {
    '0' <= c <= '9'
}

/// The digits that a text begins with.
pub open spec fn digits(s: Text) -> Text
    decreases s.len(),
{
    if s.len() > 0 && is_digit(s[0]) {
        seq![s[0]] + digits(s.drop_first())
    } else {
        Seq::empty()
    }
}

/// The number that digits write.
pub open spec fn number(digits: Text) -> nat
    decreases digits.len(),
{
    if digits.len() == 0 {
        0
    } else {
        number(digits.drop_last()) * 10 + (digits.last() as nat - '0' as nat) as nat
    }
}

/// The number that digits write, if there are any and it fits.
pub open spec fn small_number(digits: Text) -> Option<usize> {
    if digits.len() > 0 && number(digits) <= usize::MAX {
        Some(number(digits) as usize)
    } else {
        None
    }
}

/// The line that a message speaks of: the number behind the first `line `.
pub open spec fn line_in(message: Text) -> Option<usize> {
    match text::first_at(message, "line "@, 0) {
        Some(i) => small_number(digits(message.skip(i + "line "@.len()))),
        None => None,
    }
}

proof fn lemma_number_grows(ds: Text, n: int)
    requires
        0 <= n <= ds.len(),
        forall|i: int| 0 <= i < ds.len() ==> is_digit(#[trigger] ds[i]),
    ensures
        number(ds.take(n)) <= number(ds),
    decreases ds.len() - n,
{
    if n < ds.len() {
        lemma_number_grows(ds, n + 1);
        assert(ds.take(n + 1).drop_last() =~= ds.take(n));
    } else {
        assert(ds.take(n) =~= ds);
    }
}

proof fn lemma_digits(s: Text, n: int)
    requires
        0 <= n <= s.len(),
        forall|i: int| 0 <= i < n ==> is_digit(#[trigger] s[i]),
        n == s.len() || !is_digit(s[n]),
    ensures
        digits(s) == s.take(n),
    decreases n,
{
    if n > 0 {
        lemma_digits(s.drop_first(), n - 1);
        assert(s.take(n) =~= seq![s[0]] + s.drop_first().take(n - 1));
    } else {
        assert(s.take(0) =~= Seq::empty());
    }
}

/// The number that the characters `from..to` write.
fn parse_number(v: &Vec<char>, from: usize, to: usize) -> (r: Option<usize>)
    requires
        from <= to <= v@.len(),
        forall|i: int| from <= i < to ==> is_digit(#[trigger] v@[i]),
    ensures
        r == small_number(v@.subrange(from as int, to as int)),
{
    let ghost ds = v@.subrange(from as int, to as int);
    if from == to {
        return None;
    }
    let mut n: usize = 0;
    let mut i: usize = from;
    assert(ds.take(0) =~= Seq::empty());
    while i < to
        invariant
            from <= i <= to <= v@.len(),
            from < to,
            ds == v@.subrange(from as int, to as int),
            forall|i: int| 0 <= i < ds.len() ==> is_digit(#[trigger] ds[i]),
            n == number(ds.take(i - from)),
        decreases to - i,
    {
        let c = v[i];
        assert(ds[i - from] == c);
        let d: usize = (c as u32 - '0' as u32) as usize;
        proof {
            lemma_number_grows(ds, i + 1 - from);
            assert(ds.take(i + 1 - from).drop_last() =~= ds.take(i - from));
        }
        if n > (usize::MAX - d) / 10 {
            assert(n * 10 + d > usize::MAX);
            return None;
        }
        n = n * 10 + d;
        i = i + 1;
    }
    assert(ds.take(i - from) =~= ds);
    Some(n)
}

/// The line that a message speaks of.
pub fn first_line(message: &str) -> (r: Option<usize>)
    ensures
        r == line_in(message@),
{
    let v = chars_of(message);
    let p = chars_of("line ");
    match text::find(&v, &p, 0) {
        None => None,
        Some(at) => {
            let n: usize = v.len();
            let from: usize = at + p.len();
            let mut to: usize = from;
            while to < n && '0' <= v[to] && v[to] <= '9'
                invariant
                    from <= to <= n == v@.len(),
                    forall|i: int| from <= i < to ==> is_digit(#[trigger] v@[i]),
                decreases n - to,
            {
                to = to + 1;
            }
            proof {
                let rest = v@.skip(from as int);
                lemma_digits(rest, to - from);
                assert(rest.take(to - from) =~= v@.subrange(from as int, to as int));
            }
            parse_number(&v, from, to)
        },
    }
}

/// The first three of some texts.
pub open spec fn shown(errors: Seq<Text>) -> Seq<Text> {
    errors.take(if errors.len() < 3 {
        errors.len() as int
    } else {
        3
    })
}

/// What is wrong with a file of which the parser has these things to say.
pub open spec fn fault(file: Text, errors: Seq<Text>) -> Option<SyntaxView> {
    if errors.len() == 0 {
        None
    } else {
        Some(
            SyntaxView {
                file,
                line: line_in(errors[0]),
                detail: text::joined(shown(errors), "\n  "@),
            },
        )
    }
}

/// What is wrong with a file of which the parser has these things to say.
pub fn broken(file: &str, errors: &Vec<String>) -> (r: Option<Syntax>)
    ensures
        r.deep_view() == fault(file@, errors.deep_view()),
{
    let mut first: Vec<String> = Vec::new();
    let mut i: usize = 0;
    while i < errors.len() && i < 3
        invariant
            i <= errors@.len(),
            i <= 3,
            first.deep_view() =~= errors.deep_view().take(i as int),
        decreases errors.len() - i,
    {
        text::push(&mut first, copy(errors[i].as_str()));
        i = i + 1;
    }
    if errors.len() == 0 {
        None
    } else {
        Some(
            Syntax {
                file: copy(file),
                line: first_line(errors[0].as_str()),
                detail: text::join(&first, "\n  "),
            },
        )
    }
}

/// Whether there is a token, and none that could not be read.
pub fn is_fine(tokens: &Vec<Lexed>) -> (r: bool)
    ensures
        r == tree::all_fine(tokens.deep_view()),
{
    let ghost all = tokens.deep_view();
    let mut i: usize = 0;
    while i < tokens.len()
        invariant
            all == tokens.deep_view(),
            i <= all.len(),
            forall|j: int| 0 <= j < i ==> !(#[trigger] all[j] is Fatal),
        decreases tokens.len() - i,
    {
        assert(all[i as int] == tokens@[i as int].deep_view());
        if let Lexed::Fatal(_) = &tokens[i] {
            assert(all[i as int] is Fatal);
            return false;
        }
        i = i + 1;
    }
    tokens.len() > 0
}

/// Whether the lexer reads a text to its end.
fn lexes(text: &str) -> (r: bool)
    ensures
        r == tree::luau_lexes(text@),
{
    is_fine(&tree::lex_luau(text))
}

/// What the lexer says of the pieces that are no tokens.
pub open spec fn faults_in(tokens: Seq<LexedView>) -> Seq<FaultView>
    decreases tokens.len(),
{
    if tokens.len() == 0 {
        Seq::empty()
    } else {
        let some = faults_in(tokens.drop_last());
        match tokens.last() {
            LexedView::Fatal(faults) => some + faults,
            LexedView::Fine => some,
        }
    }
}

/// What the lexer says of the pieces that are no tokens.
pub fn faults(tokens: &Vec<Lexed>) -> (r: Vec<Fault>)
    ensures
        r.deep_view() == faults_in(tokens.deep_view()),
{
    let ghost all = tokens.deep_view();
    let mut out: Vec<Fault> = Vec::new();
    let mut i: usize = 0;
    assert(out.deep_view() =~= Seq::empty());
    while i < tokens.len()
        invariant
            all == tokens.deep_view(),
            i <= all.len(),
            out.deep_view() == faults_in(all.take(i as int)),
        decreases tokens.len() - i,
    {
        assert(all.take(i + 1).drop_last() =~= all.take(i as int));
        assert(all[i as int] == tokens@[i as int].deep_view());
        if let Lexed::Fatal(list) = &tokens[i] {
            let ghost some = out.deep_view();
            let ghost more = list.deep_view();
            let mut k: usize = 0;
            assert(some + more.take(0) =~= some);
            while k < list.len()
                invariant
                    more == list.deep_view(),
                    k <= more.len(),
                    out.deep_view() == some + more.take(k as int),
                decreases list.len() - k,
            {
                let f = &list[k];
                assert(more[k as int] == list@[k as int].deep_view());
                assert((some + more.take(k as int)).push(more[k as int]) =~= some + more.take(
                    k + 1,
                ));
                text::push(
                    &mut out,
                    Fault {
                        from: f.from,
                        to: f.to,
                        line: f.line,
                        message: copy(f.message.as_str()),
                    },
                );
                k = k + 1;
            }
            assert(more.take(k as int) =~= more);
        }
        i = i + 1;
    }
    assert(all.take(i as int) =~= all);
    out
}

/// The bytes that a text takes.
pub open spec fn bytes_of(s: Text) -> int
    decreases s.len(),
{
    if s.len() == 0 {
        0
    } else {
        bytes_of(s.drop_last()) + text::width(s.last())
    }
}

/// A byte is in a piece that is no token.
pub open spec fn at_fault(faults: Seq<FaultView>, byte: int) -> bool {
    exists|k: int| 0 <= k < faults.len() && (#[trigger] faults[k]).from <= byte < faults[k].to
}

/// A text with a space for every character of the pieces that are no tokens.
pub open spec fn masked(s: Text, faults: Seq<FaultView>) -> Text {
    Seq::new(
        s.len(),
        |i: int|
            if at_fault(faults, bytes_of(s.take(i))) {
                ' '
            } else {
                s[i]
            },
    )
}

/// Whether a byte is in a piece that is no token.
fn is_at_fault(faults: &Vec<Fault>, byte: u128) -> (r: bool)
    ensures
        r == at_fault(faults.deep_view(), byte as int),
{
    let ghost all = faults.deep_view();
    let mut k: usize = 0;
    while k < faults.len()
        invariant
            all == faults.deep_view(),
            k <= all.len(),
            forall|j: int|
                0 <= j < k ==> !((#[trigger] all[j]).from <= byte && byte < all[j].to),
        decreases faults.len() - k,
    {
        assert(all[k as int] == faults@[k as int].deep_view());
        if faults[k].from as u128 <= byte && byte < faults[k].to as u128 {
            assert(all[k as int].from <= byte < all[k as int].to);
            return true;
        }
        k = k + 1;
    }
    false
}

/// A text with a space for every character of the pieces that are no tokens.
pub fn mask(s: &str, faults: &Vec<Fault>) -> (r: String)
    ensures
        r@ == masked(s@, faults.deep_view()),
{
    let v = chars_of(s);
    let ghost want = masked(s@, faults.deep_view());
    let mut out = String::new();
    let mut byte: u128 = 0;
    let mut i: usize = 0;
    assert(out@ =~= want.take(0));
    assert(s@.take(0) =~= Seq::empty());
    while i < v.len()
        invariant
            v@ == s@,
            want == masked(s@, faults.deep_view()),
            i <= v@.len(),
            byte == bytes_of(s@.take(i as int)),
            byte <= 4 * i,
            out@ == want.take(i as int),
        decreases v.len() - i,
    {
        let c = v[i];
        let d = if is_at_fault(faults, byte) {
            ' '
        } else {
            c
        };
        assert(want[i as int] == d);
        assert(want.take(i as int).push(d) =~= want.take(i + 1));
        assert(s@.take(i + 1).drop_last() =~= s@.take(i as int));
        out.push(d);
        byte = byte + text::char_width(c);
        i = i + 1;
    }
    assert(want.take(i as int) =~= want);
    out
}

/// What the lexer says comes before what the parser says where it is about a line
/// further up.
pub open spec fn comes_first(fault: FaultView, error: Text) -> bool {
    match line_in(error) {
        Some(n) => fault.line < n,
        None => false,
    }
}

/// What the lexer and the parser have to say, line by line.
pub open spec fn merged(faults: Seq<FaultView>, errors: Seq<Text>) -> Seq<Text>
    decreases faults.len() + errors.len(),
{
    if faults.len() == 0 {
        errors
    } else if errors.len() == 0 || comes_first(faults[0], errors[0]) {
        seq![faults[0].message] + merged(faults.drop_first(), errors)
    } else {
        seq![errors[0]] + merged(faults, errors.drop_first())
    }
}

/// What the lexer and the parser have to say, line by line.
pub fn merge(faults: &Vec<Fault>, errors: &Vec<String>) -> (r: Vec<String>)
    ensures
        r.deep_view() == merged(faults.deep_view(), errors.deep_view()),
{
    let ghost fs = faults.deep_view();
    let ghost es = errors.deep_view();
    let mut out: Vec<String> = Vec::new();
    let mut i: usize = 0;
    let mut k: usize = 0;
    assert(fs.skip(0) =~= fs && es.skip(0) =~= es);
    assert(out.deep_view() =~= Seq::empty());
    assert(Seq::<Text>::empty() + merged(fs, es) =~= merged(fs, es));
    while i < faults.len() || k < errors.len()
        invariant
            fs == faults.deep_view(),
            es == errors.deep_view(),
            i <= fs.len(),
            k <= es.len(),
            out.deep_view() + merged(fs.skip(i as int), es.skip(k as int)) == merged(fs, es),
        decreases faults.len() - i + (errors.len() - k),
    {
        let ghost done = out.deep_view();
        let ghost left = merged(fs.skip(i as int), es.skip(k as int));
        assert(i < fs.len() ==> fs.skip(i as int).drop_first() =~= fs.skip(i + 1));
        assert(k < es.len() ==> es.skip(k as int).drop_first() =~= es.skip(k + 1));
        let first = if i >= faults.len() {
            false
        } else if k >= errors.len() {
            true
        } else {
            assert(fs[i as int] == faults@[i as int].deep_view());
            assert(es[k as int] == errors@[k as int]@);
            match first_line(errors[k].as_str()) {
                Some(n) => faults[i].line < n,
                None => false,
            }
        };
        if first {
            assert(fs[i as int] == faults@[i as int].deep_view());
            text::push(&mut out, copy(faults[i].message.as_str()));
            i = i + 1;
            assert(left == seq![out.deep_view().last()] + merged(
                fs.skip(i as int),
                es.skip(k as int),
            ));
        } else {
            assert(es[k as int] == errors@[k as int]@);
            text::push(&mut out, copy(errors[k].as_str()));
            proof {
                if i >= fs.len() {
                    assert(es.skip(k as int) =~= seq![es[k as int]] + es.skip(k + 1));
                }
            }
            k = k + 1;
            assert(left == seq![out.deep_view().last()] + merged(
                fs.skip(i as int),
                es.skip(k as int),
            ));
        }
        assert(out.deep_view() + merged(fs.skip(i as int), es.skip(k as int)) =~= done + left);
    }
    assert(merged(fs.skip(i as int), es.skip(k as int)) =~= Seq::empty());
    assert(out.deep_view() + Seq::<Text>::empty() =~= out.deep_view());
    out
}

/// The lines of a text, with each one that the lexer does not take behind those
/// before it left empty.
pub open spec fn readable(pieces: Seq<Text>) -> Text
    decreases pieces.len(),
{
    if pieces.len() == 0 {
        Seq::empty()
    } else {
        let some = readable(pieces.drop_last());
        let more = some + pieces.last().push('\n');
        if tree::luau_lexes(more) {
            more
        } else {
            some.push('\n')
        }
    }
}

/// The first line that the lexer does not take behind those before it.
pub open spec fn first_unread(pieces: Seq<Text>) -> Option<int>
    decreases pieces.len(),
{
    if pieces.len() == 0 {
        None
    } else {
        match first_unread(pieces.drop_last()) {
            Some(k) => Some(k),
            None => if tree::luau_lexes(
                readable(pieces.drop_last()) + pieces.last().push('\n'),
            ) {
                None
            } else {
                Some(pieces.len() - 1)
            },
        }
    }
}

/// What is wrong with a file of which this line is the first that cannot be read.
pub open spec fn unread_fault(file: Text, pieces: Seq<Text>, first: Option<int>) -> SyntaxView {
    match first {
        Some(k) => SyntaxView {
            file,
            line: Some((k + 1) as usize),
            detail: "unexpected text: "@ + pieces[k],
        },
        None => SyntaxView { file, line: None, detail: "unexpected text"@ },
    }
}

/// What is wrong with a file of which this line is the first that cannot be read.
pub fn unread(file: &str, pieces: &Vec<String>, first: Option<usize>) -> (r: Syntax)
    requires
        first is Some ==> first->0 < pieces@.len(),
    ensures
        r.deep_view() == unread_fault(
            file@,
            pieces.deep_view(),
            match first {
                Some(k) => Some(k as int),
                None => None,
            },
        ),
{
    let n: usize = pieces.len();
    match first {
        Some(k) => {
            assert(k < n);
            assert(pieces.deep_view()[k as int] == pieces@[k as int]@);
            Syntax {
                file: copy(file),
                line: Some(k + 1),
                detail: copy("unexpected text: ").concat(pieces[k].as_str()),
            }
        },
        None => Syntax { file: copy(file), line: None, detail: copy("unexpected text") },
    }
}

/// The lines of a text with those left empty that the lexer does not take, and
/// the first of them.
fn read_lines(pieces: &Vec<String>) -> (r: (String, Option<usize>))
    ensures
        r.0@ == readable(pieces.deep_view()),
        match r.1 {
            Some(k) => k < pieces@.len() && first_unread(pieces.deep_view()) == Some(k as int),
            None => first_unread(pieces.deep_view()) is None,
        },
{
    let ghost all = pieces.deep_view();
    let mut some = String::new();
    let mut first: Option<usize> = None;
    let mut i: usize = 0;
    assert(some@ =~= Seq::empty());
    while i < pieces.len()
        invariant
            all == pieces.deep_view(),
            i <= all.len(),
            some@ == readable(all.take(i as int)),
            match first {
                Some(k) => k < i && first_unread(all.take(i as int)) == Some(k as int),
                None => first_unread(all.take(i as int)) is None,
            },
        decreases pieces.len() - i,
    {
        assert(all.take(i + 1).drop_last() =~= all.take(i as int));
        assert(all[i as int] == pieces@[i as int]@);
        let mut more = copy(some.as_str());
        more.append(pieces[i].as_str());
        more.append("\n");
        proof {
            reveal_strlit("\n");
            assert(more@ =~= some@ + all[i as int].push('\n'));
            assert(some@ + "\n"@ =~= some@.push('\n'));
        }
        if lexes(more.as_str()) {
            some = more;
        } else {
            some.append("\n");
            if first.is_none() {
                first = Some(i);
            }
        }
        i = i + 1;
    }
    assert(all.take(i as int) =~= all);
    (some, first)
}

/// The tree of a text that the lexer reads, or an empty one.
pub open spec fn tree_of(text: Text) -> ParsedView {
    if tree::luau_lexes(text) {
        tree::luau_parsed(text)
    } else {
        ParsedView { stmts: Seq::empty(), errors: Seq::empty() }
    }
}

/// A text without the pieces that are no tokens.
pub open spec fn mended(text: Text) -> Text {
    masked(text, faults_in(tree::luau_lexed(text)))
}

/// The tree of a text, and what the parser and the lexer have to say of it. Of a
/// text with pieces that are no tokens it is the tree of what is around them.
pub open spec fn parsed(text: Text) -> ParsedView {
    if tree::luau_lexes(text) {
        tree::luau_parsed(text)
    } else if tree::luau_lexes(mended(text)) {
        let rest = tree::luau_parsed(mended(text));
        ParsedView {
            stmts: rest.stmts,
            errors: merged(faults_in(tree::luau_lexed(text)), rest.errors),
        }
    } else {
        tree_of(readable(text::split(mended(text), '\n')))
    }
}

/// What is wrong with a file with this text: what there is to say of it, or the
/// first line that cannot be read even without the pieces that are no tokens.
pub open spec fn fault_in(file: Text, text: Text) -> Option<SyntaxView> {
    if tree::luau_lexes(text) || tree::luau_lexes(mended(text)) {
        fault(file, parsed(text).errors)
    } else {
        let pieces = text::split(mended(text), '\n');
        Some(unread_fault(file, pieces, first_unread(pieces)))
    }
}

/// Parses a file with this text. A file that does not parse still has a tree,
/// made of what could be read, beside what is wrong with it.
pub fn parse(file: &str, text: &str) -> (r: (Parsed, Option<Syntax>))
    ensures
        r.0.deep_view() == parsed(text@),
        r.1.deep_view() == fault_in(file@, text@),
{
    let tokens = tree::lex_luau(text);
    if is_fine(&tokens) {
        let source = tree::parse_luau(text);
        let broken = broken(file, &source.errors);
        return (source, broken);
    }
    let faults = faults(&tokens);
    let rest = mask(text, &faults);
    if lexes(rest.as_str()) {
        let tree = tree::parse_luau(rest.as_str());
        let source = Parsed { stmts: tree.stmts, errors: merge(&faults, &tree.errors) };
        let broken = broken(file, &source.errors);
        return (source, broken);
    }
    let pieces = text::pieces(rest.as_str(), '\n');
    let (some, first) = read_lines(&pieces);
    let source = if lexes(some.as_str()) {
        tree::parse_luau(some.as_str())
    } else {
        Parsed { stmts: Vec::new(), errors: Vec::new() }
    };
    assert(!tree::luau_lexes(some@) ==> source.deep_view().stmts =~= Seq::empty());
    assert(!tree::luau_lexes(some@) ==> source.deep_view().errors =~= Seq::empty());
    (source, Some(unread(file, &pieces, first)))
}

/// The text of a node, without the white space and comments around it. What
/// stands before its first token is cut only where the text begins with it, and
/// what stands after its last one only where the text ends with it.
pub open spec fn spanned(node: RenderedView) -> Text {
    let full = node.full;
    let start = if node.lead.is_prefix_of(full) {
        node.lead.len() as int
    } else {
        0
    };
    let end = if node.trail.is_suffix_of(full) {
        full.len() - node.trail.len()
    } else {
        full.len() as int
    };
    text::trim(
        full.subrange(
            start,
            if end < start {
                start
            } else {
                end
            },
        ),
    )
}

/// The text of a node, without the white space and comments around it.
pub fn span(node: &Rendered) -> (r: String)
    ensures
        r@ == spanned(node.deep_view()),
{
    let v = chars_of(node.full.as_str());
    let lead = chars_of(node.lead.as_str());
    let trail = chars_of(node.trail.as_str());
    let n: usize = v.len();
    let start: usize = if text::starts_with(node.full.as_str(), node.lead.as_str()) {
        lead.len()
    } else {
        0
    };
    let mut end: usize = if text::ends_with(node.full.as_str(), node.trail.as_str()) {
        n - trail.len()
    } else {
        n
    };
    if end < start {
        end = start;
    }
    let cut = text::text_of(&v, start, end);
    let inner = chars_of(cut.as_str());
    let from = text::skip_white(&inner, 0);
    let to = text::end_of_text(&inner, from);
    assert(inner@.skip(0) =~= inner@);
    text::text_of(&inner, from, to)
}

/// Lines, each with its end.
pub open spec fn ended(pieces: Seq<Text>) -> Text
    decreases pieces.len(),
{
    if pieces.len() == 0 {
        Seq::empty()
    } else {
        ended(pieces.drop_last()) + pieces.last().push('\n')
    }
}

/// The lines before the first one that cannot be read are read as they are.
pub proof fn law_lines_before_the_fault_are_read(pieces: Seq<Text>, k: int)
    requires
        0 <= k <= pieces.len(),
        match first_unread(pieces) {
            Some(n) => k <= n,
            None => true,
        },
    ensures
        ended(pieces.take(k)).is_prefix_of(readable(pieces)),
    decreases pieces.len(),
{
    let some = pieces.drop_last();
    if k == pieces.len() {
        assert(pieces.take(k) =~= pieces);
        lemma_all_read(pieces);
    } else {
        lemma_first_unread(some);
        assert(some.take(k) =~= pieces.take(k));
        law_lines_before_the_fault_are_read(some, k);
        let more = readable(some) + pieces.last().push('\n');
        assert(ended(pieces.take(k)).is_prefix_of(more));
        assert(ended(pieces.take(k)).is_prefix_of(readable(some).push('\n')));
    }
}

proof fn lemma_first_unread(pieces: Seq<Text>)
    ensures
        match first_unread(pieces) {
            Some(n) => 0 <= n < pieces.len(),
            None => true,
        },
    decreases pieces.len(),
{
    if pieces.len() > 0 {
        lemma_first_unread(pieces.drop_last());
    }
}

proof fn lemma_all_read(pieces: Seq<Text>)
    requires
        match first_unread(pieces) {
            Some(n) => pieces.len() <= n,
            None => true,
        },
    ensures
        readable(pieces) == ended(pieces),
    decreases pieces.len(),
{
    lemma_first_unread(pieces);
    if pieces.len() > 0 {
        lemma_all_read(pieces.drop_last());
    }
}

/// What is read of a text without the pieces that are no tokens is the text as it
/// is, but for those pieces, so that every other token keeps its place.
pub proof fn law_only_faults_are_masked(s: Text, faults: Seq<FaultView>, i: int)
    requires
        0 <= i < s.len(),
    ensures
        masked(s, faults).len() == s.len(),
        masked(s, faults)[i] == (if at_fault(faults, bytes_of(s.take(i))) {
            ' '
        } else {
            s[i]
        }),
        faults.len() == 0 ==> masked(s, faults) == s,
{
    if faults.len() == 0 {
        assert(masked(s, faults) =~= s);
    }
}

} // verus!
