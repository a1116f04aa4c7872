//! Laws of what is said of files that do not parse.

use vstd::prelude::*;

use crate::syntax::{self, SyntaxView};
use crate::text::{self, Text};
use crate::tree::{self, FaultView, LexedView};

verus! {

/// Nothing but decimal digits.
pub open spec fn all_digits(s: Text) -> bool {
    forall|i: int| 0 <= i < s.len() ==> '0' <= #[trigger] s[i] <= '9'
}

/// A number is written in tens.
pub proof fn law_number(ds: Text, c: char)
    ensures
        syntax::number(Seq::empty()) == 0,
        '0' <= c <= '9' ==> syntax::number(ds.push(c)) == 10 * syntax::number(ds) + (c as int
            - 48),
{
    assert(ds.push(c).drop_last() =~= ds);
}

proof fn lemma_digits_of(ds: Text, rest: Text)
    requires
        all_digits(ds),
        rest.len() > 0 ==> !('0' <= rest[0] <= '9'),
    ensures
        syntax::digits(ds + rest) == ds,
    decreases ds.len(),
{
    let all = ds + rest;
    if ds.len() > 0 {
        let less = ds.drop_first();
        assert('0' <= ds[0] <= '9');
        assert forall|i: int| 0 <= i < less.len() implies '0' <= #[trigger] less[i] <= '9' by {
            assert('0' <= ds[i + 1] <= '9');
        }
        lemma_digits_of(less, rest);
        assert(all.drop_first() =~= less + rest);
        assert(ds =~= seq![ds[0]] + less);
    } else {
        assert(all =~= rest);
        assert(ds =~= Seq::<char>::empty());
    }
}

/// The line that a message speaks of is the number behind its first `line `. A
/// message without one, or with no number there that the machine can hold, speaks
/// of none.
pub proof fn law_line_of_a_message(before: Text, ds: Text, rest: Text)
    requires
        all_digits(ds),
        rest.len() > 0 ==> !('0' <= rest[0] <= '9'),
        forall|i: int|
            0 <= i < before.len() ==> !#[trigger] text::occurs_at(
                before + "line "@ + ds + rest,
                "line "@,
                i,
            ),
    ensures
        ds.len() > 0 && syntax::number(ds) <= usize::MAX ==> syntax::line_in(
            before + "line "@ + ds + rest,
        ) == Some(syntax::number(ds) as usize),
        ds.len() == 0 || syntax::number(ds) > usize::MAX ==> syntax::line_in(
            before + "line "@ + ds + rest,
        ) is None,
{
    let all = before + "line "@ + ds + rest;
    let n = before.len() as int;
    let m = "line "@.len();
    assert(all.subrange(n, n + m) =~= "line "@);
    lemma_first(all, "line "@, 0, n);
    assert(all.skip(n + m) =~= ds + rest);
    lemma_digits_of(ds, rest);
}

proof fn lemma_first(s: Text, p: Text, from: int, at: int)
    requires
        0 <= from <= at,
        text::occurs_at(s, p, at),
        forall|i: int| from <= i < at ==> !#[trigger] text::occurs_at(s, p, i),
    ensures
        text::first_at(s, p, from) == Some(at),
    decreases at - from,
{
    if from < at {
        assert(!text::occurs_at(s, p, from));
        lemma_first(s, p, from + 1, at);
    }
}

/// A message without `line ` speaks of no line.
pub proof fn law_message_without_a_line(message: Text)
    requires
        forall|i: int| !#[trigger] text::occurs_at(message, "line "@, i),
    ensures
        syntax::line_in(message) is None,
{
    lemma_nowhere(message, "line "@, 0);
}

proof fn lemma_nowhere(s: Text, p: Text, from: int)
    requires
        0 <= from,
        forall|i: int| !#[trigger] text::occurs_at(s, p, i),
    ensures
        text::first_at(s, p, from) is None,
    decreases s.len() - from + 1,
{
    assert(!text::occurs_at(s, p, from));
    if from <= s.len() {
        lemma_nowhere(s, p, from + 1);
    }
}

/// A file is at fault just where there is something to say of it. What is said
/// names the file and the line of the first thing, and tells the first three of
/// them, each on a line of its own.
pub proof fn law_fault(file: Text, a: Text, b: Text, c: Text, more: Seq<Text>)
    ensures
        syntax::fault(file, Seq::empty()) is None,
        syntax::fault(file, seq![a]) == Some(
            SyntaxView { file, line: syntax::line_in(a), detail: a },
        ),
        syntax::fault(file, seq![a, b]) == Some(
            SyntaxView { file, line: syntax::line_in(a), detail: a + "\n  "@ + b },
        ),
        syntax::fault(file, seq![a, b, c] + more) == Some(
            SyntaxView {
                file,
                line: syntax::line_in(a),
                detail: a + "\n  "@ + b + "\n  "@ + c,
            },
        ),
{
    lemma_joined(a, b, c);
    let one = seq![a];
    let two = seq![a, b];
    let all = seq![a, b, c] + more;
    assert(one.take(1) =~= one);
    assert(two.take(2) =~= two);
    assert(all.take(3) =~= seq![a, b, c]);
    assert(all[0] == a);
}

proof fn lemma_joined(a: Text, b: Text, c: Text)
    ensures
        text::joined(seq![a], "\n  "@) == a,
        text::joined(seq![a, b], "\n  "@) == a + "\n  "@ + b,
        text::joined(seq![a, b, c], "\n  "@) == a + "\n  "@ + b + "\n  "@ + c,
{
    assert(text::joined(seq![a], "\n  "@) == a);
    assert(seq![a, b].drop_last() =~= seq![a]);
    assert(text::joined(seq![a, b], "\n  "@) == a + "\n  "@ + b);
    assert(seq![a, b, c].drop_last() =~= seq![a, b]);
}

/// What the lexer says is gathered piece by piece, in order.
pub proof fn law_faults_in_order(a: Seq<LexedView>, b: Seq<LexedView>, faults: Seq<FaultView>)
    ensures
        syntax::faults_in(Seq::empty()) == Seq::<FaultView>::empty(),
        syntax::faults_in(seq![LexedView::Fine]) == Seq::<FaultView>::empty(),
        syntax::faults_in(seq![LexedView::Fatal(faults)]) == faults,
        syntax::faults_in(a + b) == syntax::faults_in(a) + syntax::faults_in(b),
    decreases b.len(),
{
    let fine = seq![LexedView::Fine];
    let fatal = seq![LexedView::Fatal(faults)];
    let none = Seq::<LexedView>::empty();
    assert(fine.drop_last() =~= none);
    assert(fatal.drop_last() =~= none);
    assert(syntax::faults_in(none) =~= Seq::<FaultView>::empty());
    assert(fine.last() == LexedView::Fine);
    assert(fatal.last() == LexedView::Fatal(faults));
    assert(syntax::faults_in(fatal) =~= faults);
    if b.len() > 0 {
        law_faults_in_order(a, b.drop_last(), faults);
        assert((a + b).drop_last() =~= a + b.drop_last());
        assert((a + b).last() == b.last());
        assert(syntax::faults_in(a + b) =~= syntax::faults_in(a) + syntax::faults_in(b));
    } else {
        assert(a + b =~= a);
        assert(syntax::faults_in(a) + syntax::faults_in(b) =~= syntax::faults_in(a));
    }
}

/// The bytes of a text are those of its characters.
pub proof fn law_bytes(a: Text, b: Text, c: char)
    ensures
        syntax::bytes_of(Seq::empty()) == 0,
        syntax::bytes_of(seq![c]) == text::width(c),
        syntax::bytes_of(a + b) == syntax::bytes_of(a) + syntax::bytes_of(b),
    decreases b.len(),
{
    assert(seq![c].drop_last() =~= Seq::<char>::empty());
    assert(syntax::bytes_of(Seq::empty()) == 0);
    assert(seq![c].last() == c);
    if b.len() > 0 {
        law_bytes(a, b.drop_last(), c);
        assert((a + b).drop_last() =~= a + b.drop_last());
        assert((a + b).last() == b.last());
    } else {
        assert(a + b =~= a);
    }
}

/// The messages of some faults.
pub open spec fn messages(faults: Seq<FaultView>) -> Seq<Text> {
    faults.map_values(|f: FaultView| f.message)
}

/// What the lexer and the parser say is told line by line: the lexer's first
/// where it is about a line further up, else the parser's. Nothing is dropped.
pub proof fn law_told_line_by_line(
    f: FaultView,
    faults: Seq<FaultView>,
    e: Text,
    errors: Seq<Text>,
)
    ensures
        syntax::merged(Seq::empty(), errors) == errors,
        syntax::merged(faults, Seq::empty()) == messages(faults),
        (syntax::line_in(e) matches Some(n) && f.line < n) ==> syntax::merged(
            seq![f] + faults,
            seq![e] + errors,
        ) == seq![f.message] + syntax::merged(faults, seq![e] + errors),
        !(syntax::line_in(e) matches Some(n) && f.line < n) ==> syntax::merged(
            seq![f] + faults,
            seq![e] + errors,
        ) == seq![e] + syntax::merged(seq![f] + faults, errors),
    decreases faults.len(),
{
    let fs = seq![f] + faults;
    let es = seq![e] + errors;
    assert(fs.drop_first() =~= faults);
    assert(es.drop_first() =~= errors);
    assert(fs[0] == f);
    assert(es[0] == e);
    if faults.len() > 0 {
        let rest = faults.drop_first();
        law_told_line_by_line(f, rest, e, errors);
        assert(syntax::merged(faults, Seq::empty()) =~= messages(faults));
    } else {
        assert(messages(faults) =~= Seq::<Text>::empty());
    }
}

/// Everything that the lexer and the parser say is told.
pub proof fn law_nothing_is_dropped(faults: Seq<FaultView>, errors: Seq<Text>)
    ensures
        syntax::merged(faults, errors).len() == faults.len() + errors.len(),
        forall|i: int|
            0 <= i < faults.len() ==> syntax::merged(faults, errors).contains(
                (#[trigger] faults[i]).message,
            ),
        forall|i: int|
            0 <= i < errors.len() ==> syntax::merged(faults, errors).contains(
                #[trigger] errors[i],
            ),
    decreases faults.len() + errors.len(),
{
    let all = syntax::merged(faults, errors);
    if faults.len() == 0 {
    } else if errors.len() == 0 || syntax::comes_first(faults[0], errors[0]) {
        let rest = faults.drop_first();
        law_nothing_is_dropped(rest, errors);
        let some = syntax::merged(rest, errors);
        assert(all =~= seq![faults[0].message] + some);
        assert forall|t: Text| #[trigger] some.contains(t) implies all.contains(t) by {
            let k = choose|k: int| 0 <= k < some.len() && some[k] == t;
            assert(all[k + 1] == t);
        }
        assert(all[0] == faults[0].message);
        assert forall|i: int| 0 <= i < faults.len() implies all.contains(
            (#[trigger] faults[i]).message,
        ) by {
            if i > 0 {
                assert(rest[i - 1] == faults[i]);
            }
        }
    } else {
        let rest = errors.drop_first();
        law_nothing_is_dropped(faults, rest);
        let some = syntax::merged(faults, rest);
        assert(all =~= seq![errors[0]] + some);
        assert forall|t: Text| #[trigger] some.contains(t) implies all.contains(t) by {
            let k = choose|k: int| 0 <= k < some.len() && some[k] == t;
            assert(all[k + 1] == t);
        }
        assert(all[0] == errors[0]);
        assert forall|i: int| 0 <= i < errors.len() implies all.contains(#[trigger] errors[i]) by {
            if i > 0 {
                assert(rest[i - 1] == errors[i]);
            }
        }
    }
}

/// The first line that cannot be read is one that the lexer does not take behind
/// the lines before it, all of which it does take.
pub proof fn law_first_line_that_cannot_be_read(pieces: Seq<Text>)
    ensures
        match syntax::first_unread(pieces) {
            Some(k) => {
                &&& 0 <= k < pieces.len()
                &&& !tree::luau_lexes(syntax::ended(pieces.take(k + 1)))
                &&& forall|j: int|
                    0 < j <= k ==> tree::luau_lexes(syntax::ended(#[trigger] pieces.take(j)))
            },
            None => forall|j: int|
                0 < j <= pieces.len() ==> tree::luau_lexes(
                    syntax::ended(#[trigger] pieces.take(j)),
                ),
        },
        syntax::first_unread(pieces) is None ==> syntax::readable(pieces) == syntax::ended(pieces),
    decreases pieces.len(),
{
    if pieces.len() > 0 {
        let some = pieces.drop_last();
        let n = pieces.len() as int;
        law_first_line_that_cannot_be_read(some);
        assert(pieces.take(n) =~= pieces);
        assert forall|j: int| 0 <= j < n implies #[trigger] pieces.take(j) == some.take(j) by {
            assert(pieces.take(j) =~= some.take(j));
        }
        if syntax::first_unread(some) is Some {
            let k = syntax::first_unread(some)->0;
            assert(pieces.take(k + 1) == some.take(k + 1));
        }
    }
}

/// What is said of a file that cannot be read: its first such line, counted from
/// one, and what stands there.
pub proof fn law_unread_fault(file: Text, pieces: Seq<Text>, k: int)
    requires
        0 <= k < pieces.len() < usize::MAX,
    ensures
        ({
            let fault = syntax::unread_fault(file, pieces, Some(k));
            &&& fault.file == file
            &&& fault.line matches Some(n) && n == k + 1
            &&& fault.detail == "unexpected text: "@ + pieces[k]
        }),
        syntax::unread_fault(file, pieces, None) == (SyntaxView {
            file,
            line: None,
            detail: "unexpected text"@,
        }),
{
}

/// A text that the lexer reads has the parser's tree, and is at fault just where
/// the parser says something. One with pieces that are no tokens has the tree of
/// the rest, if the lexer reads that, and is at fault for every such piece and
/// for what the parser says. Of any other, what the lexer takes line by line is
/// read, and it is at fault for the first line that is not.
pub proof fn law_parsed(file: Text, content: Text)
    ensures
        ({
            let read = syntax::parsed(content);
            let bad = syntax::faults_in(tree::luau_lexed(content));
            let rest = syntax::masked(content, bad);
            let whole = tree::luau_lexes(content);
            &&& whole ==> read == tree::luau_parsed(content)
            &&& !whole && tree::luau_lexes(rest) ==> read.stmts == tree::luau_parsed(rest).stmts
                && read.errors == syntax::merged(bad, tree::luau_parsed(rest).errors)
            &&& whole || tree::luau_lexes(rest) ==> syntax::fault_in(file, content)
                == syntax::fault(file, read.errors)
            &&& !whole && !tree::luau_lexes(rest) ==> {
                let pieces = text::split(rest, '\n');
                let some = syntax::readable(pieces);
                &&& syntax::fault_in(file, content) == Some(
                    syntax::unread_fault(file, pieces, syntax::first_unread(pieces)),
                )
                &&& tree::luau_lexes(some) ==> read == tree::luau_parsed(some)
                &&& !tree::luau_lexes(some) ==> read.stmts.len() == 0 && read.errors.len() == 0
            }
        }),
{
}

/// What is wrong with a file is told behind the file's name, on a line of its own.
pub proof fn law_trouble_in_words(s: SyntaxView)
    ensures
        syntax::told(s) == s.file + ":"@ + "\n"@ + "  "@ + s.detail,
{
    reveal_strlit(":\n  ");
    reveal_strlit(":");
    reveal_strlit("\n");
    reveal_strlit("  ");
    assert(":\n  "@ =~= ":"@ + "\n"@ + "  "@);
    assert(syntax::told(s) =~= s.file + ":"@ + "\n"@ + "  "@ + s.detail);
}

/// The lexer reads a text just where it finds a token in it and no piece that is
/// none.
pub proof fn law_lexes(content: Text, a: Seq<LexedView>, faults: Seq<FaultView>)
    ensures
        tree::luau_lexes(content) <==> tree::all_fine(tree::luau_lexed(content)),
        !tree::all_fine(Seq::empty()),
        tree::all_fine(seq![LexedView::Fine]),
        !tree::all_fine(a.push(LexedView::Fatal(faults))),
        a.len() > 0 ==> (tree::all_fine(a.push(LexedView::Fine)) <==> tree::all_fine(a)),
{
    let bad = a.push(LexedView::Fatal(faults));
    assert(bad[a.len() as int] is Fatal);
    let good = a.push(LexedView::Fine);
    assert forall|i: int| 0 <= i < a.len() implies #[trigger] good[i] == a[i] by {}
    if a.len() > 0 && tree::all_fine(good) {
        assert forall|i: int| 0 <= i < a.len() implies !(#[trigger] a[i] is Fatal) by {
            assert(!(good[i] is Fatal));
        }
    }
    if a.len() > 0 && tree::all_fine(a) {
        assert forall|i: int| 0 <= i < good.len() implies !(#[trigger] good[i] is Fatal) by {
            if i < a.len() {
                assert(!(a[i] is Fatal));
            }
        }
    }
}

/// What is masked is the characters that begin in a piece that is no token, and
/// no other. Each becomes one space.
pub proof fn law_masked(s: Text, faults: Seq<FaultView>)
    ensures
        syntax::masked(s, Seq::empty()) == s,
        syntax::masked(s, faults).len() == s.len(),
        forall|i: int, k: int|
            #![trigger s[i], faults[k]]
            0 <= i < s.len() && 0 <= k < faults.len() && faults[k].from <= syntax::bytes_of(
                s.take(i),
            ) < faults[k].to ==> syntax::masked(s, faults)[i] == ' ',
        forall|i: int|
            #![trigger s[i]]
            0 <= i < s.len() && (forall|k: int|
                0 <= k < faults.len() ==> !((#[trigger] faults[k]).from <= syntax::bytes_of(
                    s.take(i),
                ) < faults[k].to)) ==> syntax::masked(s, faults)[i] == s[i],
{
    assert(syntax::masked(s, Seq::empty()) =~= s);
}

} // verus!
