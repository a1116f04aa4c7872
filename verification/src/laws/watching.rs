//! Laws of a watcher's rounds, and of what is remembered between them.

use vstd::prelude::*;

use crate::extract;
use crate::module::ModuleView;
use crate::paths;
use crate::source::SourceView;
use crate::state::{self, Stamp, StateView};
use crate::syntax::SyntaxView;
use crate::table::{self, Rows};
use crate::text::{self, Text};
use crate::tree::StatementView;
use crate::watch::{self, Change, EventView, NoteView, Task, Upkeep, WatcherView};

verus! {

/// A change in a word.
pub proof fn law_labels()
    ensures
        watch::label_of(Change::New) == "new"@,
        watch::label_of(Change::Deleted) == "deleted"@,
        watch::label_of(Change::Changed) == "changed"@,
{
}

/// A file that is there only now is new, one that was there only before is
/// deleted, and one with another stamp than before is changed. Of a file that is
/// in neither look, or has the stamp that it had, there is nothing to tell.
pub proof fn law_what_becomes_of_a_file(previous: Rows<Stamp>, current: Rows<Stamp>, path: Text)
    ensures
        ({
            let was = table::get(previous, path);
            let is = table::get(current, path);
            let change = watch::change_of(previous, current, path);
            &&& change == Some(Change::New) <==> was is None && is is Some
            &&& change == Some(Change::Deleted) <==> was is Some && is is None
            &&& change == Some(Change::Changed) <==> was is Some && is is Some && was != is
            &&& change is None <==> was == is
        }),
{
}

/// What is told of two looks is in the order of the paths: what is told of a
/// longer list of files is what is told of its beginning, then of the rest.
pub proof fn law_changes_in_order(
    a: Seq<Text>,
    b: Seq<Text>,
    path: Text,
    previous: Rows<Stamp>,
    current: Rows<Stamp>,
)
    ensures
        paths::in_path_order(watch::all_files(previous, current)),
        watch::changes_at(a + b, previous, current) == watch::changes_at(a, previous, current)
            + watch::changes_at(b, previous, current),
        watch::changes_at(seq![path], previous, current) == match watch::change_of(
            previous,
            current,
            path,
        ) {
            Some(change) => seq![(change, path)],
            None => Seq::empty(),
        },
    decreases b.len(),
{
    paths::law_path_set(table::keys(current) + table::keys(previous));
    assert(seq![path].drop_last() =~= Seq::<Text>::empty());
    assert(watch::changes_at(Seq::empty(), previous, current) == Seq::<(Change, Text)>::empty());
    assert(seq![path].last() == path);
    if b.len() > 0 {
        law_changes_in_order(a, b.drop_last(), path, previous, current);
        assert((a + b).drop_last() =~= a + b.drop_last());
        assert((a + b).last() == b.last());
        assert(watch::changes_at(a + b, previous, current) =~= watch::changes_at(
            a,
            previous,
            current,
        ) + watch::changes_at(b, previous, current));
    } else {
        assert(a + b =~= a);
        assert(watch::changes_at(a, previous, current) + watch::changes_at(b, previous, current)
            =~= watch::changes_at(a, previous, current));
    }
}

/// The tree moves where a file came or went. Files that merely hold something
/// else leave it.
pub proof fn law_tree_moves(a: Seq<(Change, Text)>, change: Change, path: Text)
    ensures
        !watch::moves_tree(Seq::empty()),
        watch::moves_tree(a.push((Change::New, path))),
        watch::moves_tree(a.push((Change::Deleted, path))),
        watch::moves_tree(a.push((Change::Changed, path))) <==> watch::moves_tree(a),
{
    let b = a.push((Change::New, path));
    assert(b[a.len() as int].0 != Change::Changed);
    let c = a.push((Change::Deleted, path));
    assert(c[a.len() as int].0 != Change::Changed);
    let d = a.push((Change::Changed, path));
    if watch::moves_tree(a) {
        let i = choose|i: int| 0 <= i < a.len() && (#[trigger] a[i]).0 != Change::Changed;
        assert(d[i] == a[i]);
    }
    if watch::moves_tree(d) {
        let i = choose|i: int| 0 <= i < d.len() && (#[trigger] d[i]).0 != Change::Changed;
        assert(d[i] == a[i]);
    }
}

/// The sourcemap is made again just where that was asked for, it is derived, and
/// the tree or its source changed. It is touched where that was asked for and
/// something was written or changed otherwise. Else it is left.
pub proof fn law_upkeep(asked: bool, reloaded: bool, moved: bool, wrote: bool, owned: bool)
    ensures
        ({
            let u = watch::upkeep_of(asked, reloaded, moved, wrote, owned);
            &&& u == Upkeep::Rebuild <==> asked && owned && (reloaded || moved)
            &&& u == Upkeep::Touch <==> asked && ((reloaded || moved) && !owned || wrote && !(
            reloaded || moved))
            &&& u == Upkeep::Leave <==> !asked || !(reloaded || moved || wrote)
        }),
{
}

/// An error is waited out just where a module was moved in this round and the
/// error speaks of something that is outside.
pub proof fn law_awaited(before: Text, after: Text, message: Text)
    ensures
        watch::awaited(true, before + "outside"@ + after),
        !watch::awaited(false, message),
        watch::awaited(true, message) ==> exists|i: int|
            0 <= i && i + 7 <= message.len() && #[trigger] message.subrange(i, i + 7)
                == "outside"@,
{
    reveal_strlit("outside");
    let all = before + "outside"@ + after;
    let n = before.len() as int;
    assert(all.subrange(n, n + 7) =~= "outside"@);
    assert(text::occurs_at(all, "outside"@, n));
    if watch::awaited(true, message) {
        let i = choose|i: int| text::occurs_at(message, "outside"@, i);
        assert(message.subrange(i, i + 7) == "outside"@);
    }
}

/// The watcher once it knows the stamp of the source's file, and has read the
/// source again where the stamp is another.
pub open spec fn informed(w: WatcherView, stamp: Option<Stamp>) -> WatcherView {
    let w1 = watch::stepped(w, EventView::Stamped(stamp)).0;
    if stamp != w.stamp {
        watch::stepped(w1, EventView::Reloaded(Ok(()))).0
    } else {
        w1
    }
}

/// A round begins with the stamp of the source's file. Where it is another than
/// before the source is read again, and that is told. Then the files are looked
/// at.
pub proof fn law_round_begins(w: WatcherView, stamp: Option<Stamp>, why: Text)
    requires
        w.phase is Waiting,
    ensures
        watch::task_in(w.phase) == Task::Wait,
        ({
            let (w1, told) = watch::stepped(w, EventView::Stamped(stamp));
            &&& told == Seq::<NoteView>::empty()
            &&& w1.stamp == stamp
            &&& stamp == w.stamp ==> watch::task_in(w1.phase) == Task::Look
            &&& stamp != w.stamp ==> {
                let (w2, then_told) = watch::stepped(w1, EventView::Reloaded(Ok(())));
                let (w3, else_told) = watch::stepped(w1, EventView::Reloaded(Err(why)));
                &&& watch::task_in(w1.phase) == Task::Reload
                &&& watch::task_in(w2.phase) == Task::Look
                &&& watch::task_in(w3.phase) == Task::Look
                &&& then_told == seq![NoteView::Reloaded]
                &&& else_told == seq![NoteView::NotReloaded(why)]
                &&& w3.look == w.look
                &&& w3.stamp == stamp
            }
        }),
        informed(w, stamp).look == w.look,
        informed(w, stamp).stamp == stamp,
        informed(w, stamp).autofix == w.autofix,
        informed(w, stamp).nudge == w.nudge,
        informed(w, stamp).owned == w.owned,
{
}

/// A round in which files changed, or the source was read again: what changed is
/// told, the files are generated, and that is told. Then the sourcemap is seen
/// to where that was asked for: made again where it is derived and the tree
/// moved or the source was read again, else touched where anything was written
/// or changed. The next round starts from what this one saw.
pub proof fn law_round(
    w: WatcherView,
    stamp: Option<Stamp>,
    now: Rows<Stamp>,
    wrote: bool,
)
    requires
        w.phase is Waiting,
        stamp != w.stamp || now != w.look,
    ensures
        ({
            let moved = watch::moves_tree(watch::changes(w.look, now));
            let reloaded = stamp != w.stamp;
            let (w3, seen) = watch::stepped(informed(w, stamp), EventView::Looked(now));
            let w4 = if w.autofix {
                watch::stepped(w3, EventView::Fixed(false)).0
            } else {
                w3
            };
            let (w5, told) = watch::stepped(w4, EventView::Passed(Ok(wrote)));
            let (w6, nothing) = watch::stepped(w5, EventView::Kept);
            let rebuild = w.nudge && w.owned && (moved || reloaded);
            let touch = w.nudge && !rebuild && (wrote || moved || reloaded);
            &&& seen == watch::sightings(watch::changes(w.look, now))
            &&& w.autofix ==> watch::task_in(w3.phase) == Task::Fix
            &&& watch::task_in(w4.phase) == Task::Pass
            &&& told == seq![NoteView::Regenerated]
            &&& rebuild ==> watch::task_in(w5.phase) == Task::Keep(Upkeep::Rebuild)
            &&& touch ==> watch::task_in(w5.phase) == Task::Keep(Upkeep::Touch)
            &&& !rebuild && !touch ==> watch::task_in(w5.phase) == Task::Wait
            &&& nothing == Seq::<NoteView>::empty()
            &&& watch::task_in(w6.phase) == Task::Wait
            &&& w6.look == now
            &&& w6.stamp == stamp
            &&& w6.autofix == w.autofix && w6.nudge == w.nudge && w6.owned == w.owned
        }),
{
}

/// A round in which a module was moved: the files are looked at again before
/// they are generated, and the tree counts as moved. An error that only says
/// that the new place is outside is waited out, any other is told.
pub proof fn law_round_that_moves(
    w: WatcherView,
    stamp: Option<Stamp>,
    now: Rows<Stamp>,
    again: Rows<Stamp>,
    why: Text,
)
    requires
        w.phase is Waiting,
        w.autofix,
        stamp != w.stamp || now != w.look,
    ensures
        ({
            let w3 = watch::stepped(informed(w, stamp), EventView::Looked(now)).0;
            let (w4, nothing) = watch::stepped(w3, EventView::Fixed(true));
            let (w5, silent) = watch::stepped(w4, EventView::Looked(again));
            let (w6, told) = watch::stepped(w5, EventView::Passed(Err(why)));
            let (w7, done) = watch::stepped(w5, EventView::Passed(Ok(false)));
            &&& nothing == Seq::<NoteView>::empty()
            &&& silent == Seq::<NoteView>::empty()
            &&& watch::task_in(w4.phase) == Task::Look
            &&& watch::task_in(w5.phase) == Task::Pass
            &&& w5.look == again
            &&& told == if watch::awaited(true, why) {
                seq![NoteView::Awaiting]
            } else {
                seq![NoteView::Failed(why)]
            }
            &&& done == seq![NoteView::Regenerated]
            &&& w6.phase == w7.phase
            &&& w.nudge && w.owned ==> watch::task_in(w7.phase) == Task::Keep(Upkeep::Rebuild)
            &&& w.nudge && !w.owned ==> watch::task_in(w7.phase) == Task::Keep(Upkeep::Touch)
            &&& !w.nudge ==> watch::task_in(w7.phase) == Task::Wait
            &&& w7.look == again && w7.stamp == stamp
        }),
{
}

/// A round that fails without a module that was moved: the error is told, and
/// the sourcemap is seen to as if nothing had been written.
pub proof fn law_round_that_fails(
    w: WatcherView,
    stamp: Option<Stamp>,
    now: Rows<Stamp>,
    why: Text,
)
    requires
        w.phase is Waiting,
        stamp != w.stamp || now != w.look,
    ensures
        ({
            let w3 = watch::stepped(informed(w, stamp), EventView::Looked(now)).0;
            let w4 = if w.autofix {
                watch::stepped(w3, EventView::Fixed(false)).0
            } else {
                w3
            };
            let (w5, told) = watch::stepped(w4, EventView::Passed(Err(why)));
            &&& told == seq![NoteView::Failed(why)]
            &&& w5.phase == watch::stepped(w4, EventView::Passed(Ok(false))).0.phase
            &&& w5.look == now
        }),
{
}

/// An answer to something else than the task changes nothing and is not told of.
pub proof fn law_other_answers(w: WatcherView, event: EventView)
    requires
        !watch::answers(event, w.phase),
    ensures
        watch::stepped(w, event).0 == w,
        watch::stepped(w, event).1 == Seq::<NoteView>::empty(),
{
}

/// What is told of changes is each of them, in order.
pub proof fn law_sightings(changes: Seq<(Change, Text)>)
    ensures
        watch::sightings(changes).len() == changes.len(),
        forall|i: int|
            0 <= i < changes.len() ==> (#[trigger] watch::sightings(changes)[i]) == NoteView::Seen(
                changes[i].0,
                changes[i].1,
            ),
{
}

/// A module is given back just where its file was read with the stamp that it
/// has now.
pub proof fn law_remembered(
    cache: Rows<(Stamp, ModuleView)>,
    path: Text,
    now: Stamp,
    m: ModuleView,
)
    ensures
        state::remembered(cache, path, Some(now)) == Some(m) <==> table::get(cache, path) == Some(
            (now, m),
        ),
        state::remembered(cache, path, None) is None,
        state::remembering(cache, path, None, m) == cache,
{
}

/// The modules that were not read yet are, in order, those that the cache has
/// no row for.
pub proof fn law_unread(modules: Seq<Text>, cache: Rows<(Stamp, ModuleView)>)
    ensures
        state::unread(modules, cache) == modules.filter(|m: Text| !table::keys(cache).contains(m)),
    decreases modules.len(),
{
    reveal(Seq::filter);
    if modules.len() > 0 {
        law_unread(modules.drop_last(), cache);
        let last = modules.last();
        table::lemma_get_none(cache, last);
        let keys = table::keys(cache);
        if keys.contains(last) {
            let i = choose|i: int| 0 <= i < keys.len() && keys[i] == last;
            assert(cache[i].0 == last);
        } else if table::get(cache, last) is Some {
            let j = choose|j: int| 0 <= j < cache.len() && (#[trigger] cache[j]).0 == last;
            assert(keys[j] == last);
        }
    }
}

/// A watcher starts between two rounds, with what it was told. It owns the
/// sourcemap just where its source is a project file.
pub proof fn law_watcher_starts(
    p: Text,
    autofix: bool,
    nudge: bool,
    stamp: Option<Stamp>,
    look: Rows<Stamp>,
)
    ensures
        ({
            let w = watch::started(SourceView::Project(p), autofix, nudge, stamp, look);
            let v = watch::started(SourceView::Sourcemap(p), autofix, nudge, stamp, look);
            &&& watch::task_in(w.phase) == Task::Wait
            &&& w.autofix == autofix && w.nudge == nudge && w.stamp == stamp && w.look == look
            &&& w.owned && !v.owned
            &&& v == (WatcherView { owned: false, ..w })
        }),
{
}

/// A project with another map has that map, and remembers nothing of what was
/// read under the old one. Where it is and where its files end up stays.
pub proof fn law_reloaded(
    s: StateView,
    entries: Rows<Seq<Text>>,
    path: Text,
    stamp: Option<Stamp>,
)
    ensures
        state::reloaded(s, entries).entries == entries,
        state::remembered(state::reloaded(s, entries).cache, path, stamp) is None,
        state::reloaded(s, entries).root == s.root,
        state::reloaded(s, entries).layout == s.layout,
        state::reloaded(s, entries) == state::nothing_read(s.root, entries, s.layout),
{
}

/// A project forgets the files that are gone, and nothing else.
pub proof fn law_retained(s: StateView, seen: Seq<Text>, path: Text, stamp: Option<Stamp>)
    requires
        table::sorted(s.cache),
    ensures
        seen.contains(path) ==> state::remembered(state::retained(s, seen).cache, path, stamp)
            == state::remembered(s.cache, path, stamp),
        !seen.contains(path) ==> state::remembered(
            state::retained(s, seen).cache,
            path,
            stamp,
        ) is None,
        state::retained(s, seen).entries == s.entries,
        state::retained(s, seen).root == s.root,
        state::retained(s, seen).layout == s.layout,
{
    table::law_get_kept(s.cache, seen, path);
}

/// A project that has read a module gives it back for the stamp that its file
/// had, and forgets nothing else. A file without a module, or without a stamp,
/// leaves the project as it was.
pub proof fn law_having_read(
    s: StateView,
    path: Text,
    stamp: Stamp,
    m: ModuleView,
    other: Text,
    now: Option<Stamp>,
)
    requires
        table::sorted(s.cache),
        other != path,
    ensures
        ({
            let t = state::having_read(s, path, Some(stamp), Some(m));
            &&& state::remembered(t.cache, path, Some(stamp)) == Some(m)
            &&& state::remembered(t.cache, other, now) == state::remembered(s.cache, other, now)
            &&& t.entries == s.entries && t.root == s.root && t.layout == s.layout
        }),
        state::having_read(s, path, None, Some(m)) == s,
        state::having_read(s, path, now, None) == s,
{
    table::law_get_put(s.cache, path, (stamp, m), path);
    table::law_get_put(s.cache, path, (stamp, m), other);
}

/// The module that is read from a file is the one that the file declares, under
/// the path that messages show.
pub proof fn law_read_module(
    root: Text,
    path: Text,
    stmts: Seq<StatementView>,
    broken: Option<SyntaxView>,
)
    ensures
        match (
            extract::extraction(path, stmts, broken),
            state::extracted(root, path, stmts, broken),
        ) {
            (Some(m), Some(read)) => read == (ModuleView {
                file: text::slashes(paths::relative(path, root)),
                ..m
            }),
            (None, None) => true,
            _ => false,
        },
{
}

} // verus!
