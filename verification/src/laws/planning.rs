//! Laws of what a pass does to the disk.

use vstd::prelude::*;

use crate::effects::{Disk, Project};
use crate::layout::LayoutView;
use crate::manifest;
use crate::module::ModuleView;
use crate::pass;
use crate::paths::{self, PartView};
use crate::plan::{self, EffectView, Step, What};
use crate::rojo::{MapFault, Side};
use crate::table::{self, Rows};
use crate::text::Text;

verus! {

/// Effects happen one after the other. One with a text leaves the file with that
/// text, one without leaves no file, and neither touches any other file.
pub proof fn law_effects(
    disk: Disk,
    a: Seq<EffectView>,
    b: Seq<EffectView>,
    e: EffectView,
    path: Text,
)
    ensures
        plan::applied(disk, Seq::empty()) == disk,
        plan::applied(disk, a + b) == plan::applied(plan::applied(disk, a), b),
        paths::parts(path) == paths::parts(e.file) ==> plan::look(
            plan::applied(disk, seq![e]),
            path,
        ) == e.text,
        paths::parts(path) != paths::parts(e.file) ==> plan::look(
            plan::applied(disk, seq![e]),
            path,
        ) == plan::look(disk, path),
    decreases b.len(),
{
    let none = Seq::<EffectView>::empty();
    assert(plan::applied(disk, none) == disk);
    assert(seq![e].drop_last() =~= none);
    assert(seq![e].last() == e);
    if b.len() > 0 {
        law_effects(disk, a, b.drop_last(), e, path);
        assert((a + b).drop_last() =~= a + b.drop_last());
        assert((a + b).last() == b.last());
    } else {
        assert(a + b =~= a);
        assert(plan::applied(plan::applied(disk, a), b) == plan::applied(disk, a));
    }
}

/// Steps are taken one after the other, until one cannot be. A file that holds
/// its text already is not written; any other is, and what is to be removed is.
pub proof fn law_steps(
    on_disk: Rows<Text>,
    done: Seq<EffectView>,
    a: Seq<Step>,
    b: Seq<Step>,
    e: EffectView,
    fault: MapFault,
)
    ensures
        plan::taken(on_disk, done, Seq::empty()) == (done, None::<MapFault>),
        plan::taken(on_disk, done, a) matches (now, None) ==> plan::taken(on_disk, done, a + b)
            == plan::taken(on_disk, now, b),
        plan::taken(on_disk, done, a).1 is Some ==> plan::taken(on_disk, done, a + b)
            == plan::taken(on_disk, done, a),
        plan::taken(on_disk, done, seq![Err::<EffectView, MapFault>(fault)]) == (done, Some(fault)),
        e.text is None ==> plan::taken(on_disk, done, seq![Ok::<EffectView, MapFault>(e)]) == (
            done.push(e),
            None::<MapFault>,
        ),
        e.text is Some && plan::seen(on_disk, done, e.file) == e.text ==> plan::taken(
            on_disk,
            done,
            seq![Ok::<EffectView, MapFault>(e)],
        ) == (done, None::<MapFault>),
        e.text is Some && plan::seen(on_disk, done, e.file) != e.text ==> plan::taken(
            on_disk,
            done,
            seq![Ok::<EffectView, MapFault>(e)],
        ) == (done.push(e), None::<MapFault>),
{
    plan::lemma_taken_cat(on_disk, done, a, b);
    let none = Seq::<Step>::empty();
    assert(plan::taken(on_disk, done, none) == (done, None::<MapFault>));
    let bad = seq![Err::<EffectView, MapFault>(fault)];
    let good = seq![Ok::<EffectView, MapFault>(e)];
    assert(bad.drop_last() =~= none);
    assert(good.drop_last() =~= none);
    assert(bad.last() == Err::<EffectView, MapFault>(fault));
    assert(good.last() == Ok::<EffectView, MapFault>(e));
}

/// What a file holds after some effects is what the last effect on it left, or
/// what was on disk.
pub proof fn law_seen(on_disk: Rows<Text>, done: Seq<EffectView>, e: EffectView, path: Text)
    ensures
        plan::seen(on_disk, Seq::empty(), path) == table::get(on_disk, path),
        paths::parts(e.file) == paths::parts(path) ==> plan::seen(on_disk, done.push(e), path)
            == e.text,
        paths::parts(e.file) != paths::parts(path) ==> plan::seen(on_disk, done.push(e), path)
            == plan::seen(on_disk, done, path),
{
    assert(done.push(e).drop_last() =~= done);
}

/// A pass begins with the leaves of the modules that it read, each in its file.
/// Leaves whose module is gone are removed next. The Manifests, the module lists
/// and the libraries come last, each in its file and under its own head.
pub proof fn law_steps_of_a_pass(p: Project, fresh: Seq<bool>, listing: Seq<Text>)
    ensures
        ({
            let read = pass::newly(p.modules, fresh);
            let gone = p.gone(listing);
            let all = plan::steps(p, fresh, listing);
            let n = read.len() as int;
            let m = n + gone.len();
            let k = m + p.layout.targets.len();
            let l = k + p.layout.module_lists.len();
            &&& all.len() == l + 1
            &&& forall|i: int|
                0 <= i < read.len() ==> writes(
                    #[trigger] all[i],
                    What::Leaf,
                    pass::leaf_entry(read[i], p.sides, p.entries, p.layout),
                )
            &&& forall|i: int|
                0 <= i < gone.len() ==> removes(all[n + i], What::Stale, #[trigger] gone[i])
            &&& forall|i: int|
                0 <= i < p.layout.targets.len() ==> writes(
                    all[m + i],
                    What::Manifest((#[trigger] p.layout.targets[i]).0),
                    pass::in_file(
                        p.layout.targets[i].1,
                        manifest::manifest_of(
                            p.layout.targets[i].0,
                            p.modules,
                            p.sides,
                            p.entries,
                            p.layout,
                        ),
                    ),
                )
            &&& forall|i: int|
                0 <= i < p.layout.module_lists.len() ==> writes(
                    all[k + i],
                    What::List((#[trigger] p.layout.module_lists[i]).0),
                    pass::in_file(
                        p.layout.module_lists[i].1,
                        manifest::list_of(
                            p.layout.module_lists[i].0,
                            p.modules,
                            p.sides,
                            p.entries,
                        ),
                    ),
                )
            &&& writes(
                all[l],
                What::Libs,
                pass::in_file(
                    p.layout.libs_target,
                    manifest::libs_of(p.root, p.layout.libs_dir, p.shelved, p.entries),
                ),
            )
        }),
{
}

/// A step that writes a file with its text, or the fault that there is instead.
pub open spec fn writes(step: Step, what: What, made: Result<(Text, Text), MapFault>) -> bool {
    match made {
        Ok((file, t)) => step matches Ok(e) && e.what == what && e.file == file && e.text == Some(
            t,
        ),
        Err(f) => step == Err::<EffectView, MapFault>(f),
    }
}

/// A step that removes a file.
pub open spec fn removes(step: Step, what: What, file: Text) -> bool {
    step matches Ok(e) && e.what == what && e.file == file && e.text is None
}

/// The place that a step is about.
pub open spec fn is_about(step: Step, place: Seq<PartView>) -> bool {
    step matches Ok(e) && paths::parts(e.file) == place
}

/// Steps that can all be taken leave every file with what the last step about it
/// is for, and leave alone all that no step is about.
pub proof fn law_steps_leave_their_files(
    on_disk: Rows<Text>,
    disk: Disk,
    steps: Seq<Step>,
    path: Text,
)
    requires
        plan::shows(on_disk, disk, steps),
        plan::taken(on_disk, Seq::empty(), steps).1 is None,
    ensures
        ({
            let then_there = plan::look(
                plan::applied(disk, plan::taken(on_disk, Seq::empty(), steps).0),
                path,
            );
            let place = paths::parts(path);
            &&& (forall|i: int| 0 <= i < steps.len() ==> !is_about(#[trigger] steps[i], place))
                ==> then_there == plan::look(disk, path)
            &&& forall|i: int|
                #![trigger steps[i]]
                0 <= i < steps.len() && is_about(steps[i], place) && (forall|j: int|
                    i < j < steps.len() ==> !is_about(#[trigger] steps[j], place)) ==> then_there
                    == steps[i]->Ok_0.text
        }),
    decreases steps.len(),
{
    let none = Seq::<EffectView>::empty();
    let place = paths::parts(path);
    if steps.len() > 0 {
        let some = steps.drop_last();
        let n = steps.len() - 1;
        let last = steps.last();
        assert(last == steps[n]);
        assert forall|i: int| 0 <= i < some.len() implies match #[trigger] some[i] {
            Ok(e) => e.text is Some ==> table::get(on_disk, e.file) == plan::look(disk, e.file),
            Err(_) => true,
        } by {
            assert(some[i] == steps[i]);
        }
        law_steps_leave_their_files(on_disk, disk, some, path);
        let now = plan::taken(on_disk, none, some).0;
        let e = last->Ok_0;
        if e.text is Some {
            plan::lemma_seen(on_disk, disk, now, e.file);
        }
        assert(now.push(e).drop_last() =~= now);
        let all = plan::taken(on_disk, none, steps).0;
        assert(all == now || all == now.push(e));
        if forall|i: int| 0 <= i < steps.len() ==> !is_about(#[trigger] steps[i], place) {
            assert forall|i: int| 0 <= i < some.len() implies !is_about(
                #[trigger] some[i],
                place,
            ) by {
                assert(some[i] == steps[i]);
            }
        }
        assert forall|i: int|
            #![trigger steps[i]]
            0 <= i < steps.len() && is_about(steps[i], place) && (forall|j: int|
                i < j < steps.len() ==> !is_about(
                    #[trigger] steps[j],
                    place,
                )) implies plan::look(plan::applied(disk, all), path) == steps[i]->Ok_0.text by {
            if i < n {
                assert(some[i] == steps[i]);
                assert(!is_about(steps[n], place));
                assert forall|j: int| i < j < some.len() implies !is_about(
                    #[trigger] some[j],
                    place,
                ) by {
                    assert(some[j] == steps[j]);
                }
            }
        }
    }
}

/// The files that a pass asks for are the leaves of the modules that it read,
/// the Manifests, the module lists and the libraries.
pub proof fn law_files_asked_for(
    ms: Seq<ModuleView>,
    fresh: Seq<bool>,
    sides: Rows<Side>,
    layout: LayoutView,
)
    ensures
        ({
            let read = pass::newly(ms, fresh);
            let all = plan::asked_for(ms, fresh, sides, layout);
            let n = read.len() as int;
            let m = n + layout.targets.len();
            let k = m + layout.module_lists.len();
            &&& all.len() == k + 1
            &&& forall|i: int|
                0 <= i < read.len() ==> #[trigger] all[i] == manifest::leaf_file(
                    layout,
                    sides,
                    read[i].id,
                )
            &&& forall|i: int|
                0 <= i < layout.targets.len() ==> all[n + i] == (#[trigger] layout.targets[i]).1
            &&& forall|i: int|
                0 <= i < layout.module_lists.len() ==> all[m + i] == (
                #[trigger] layout.module_lists[i]).1
            &&& all[k] == layout.libs_target
        }),
{
}

/// A pass changes something just where it has an effect: without one the disk
/// stays as it is.
pub proof fn law_acts(disk: Disk, done: Seq<EffectView>, e: EffectView)
    ensures
        plan::acts(done.push(e)),
        !plan::acts(done) ==> plan::applied(disk, done) == disk,
{
}

} // verus!
