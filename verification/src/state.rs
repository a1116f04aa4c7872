//! What is known of a project between two passes.

use vstd::prelude::*;

use crate::extract::{self, Extractor, NoCall};
use crate::layout::{Layout, LayoutView};
use crate::module::{Duplicate, Module, ModuleView};
use crate::paths;
use crate::rojo::{self, MapError, RojoMap};
use crate::source::{Source, SourceView};
use crate::syntax::{self, SyntaxView};
use crate::table::{self, Rows, Table};
use crate::text::{self, copy, Text};
use crate::tree;

verus! {

/// When a file was written, in nanoseconds, and how long it is.
#[derive(Debug, Clone, Copy, PartialEq, Eq, Structural)]
pub struct Stamp {
    pub modified: i128,
    pub size: u64,
}

impl DeepView for Stamp {
    type V = Stamp;

    open spec fn deep_view(&self) -> Stamp {
        *self
    }
}

/// A module, and the stamp of its file when it was read.
pub struct Cached {
    stamp: Stamp,
    module: Module,
}

impl DeepView for Cached {
    type V = (Stamp, ModuleView);

    closed spec fn deep_view(&self) -> (Stamp, ModuleView) {
        (self.stamp, self.module.deep_view())
    }
}

/// A project: where it is, where its files end up, and the modules that were
/// read, by path.
pub struct State {
    pub root: String,
    pub map: RojoMap,
    pub layout: Layout,
    pub cache: Table<Cached>,
}

/// What a `State` holds.
pub struct StateView {
    pub root: Text,
    pub entries: Rows<Seq<Text>>,
    pub layout: LayoutView,
    pub cache: Rows<(Stamp, ModuleView)>,
}

impl View for State {
    type V = StateView;

    open spec fn view(&self) -> StateView {
        StateView {
            root: self.root@,
            entries: self.map@,
            layout: self.layout.deep_view(),
            cache: self.cache@,
        }
    }
}

/// The module that was read from a file with this stamp.
pub open spec fn remembered(
    cache: Rows<(Stamp, ModuleView)>,
    path: Text,
    stamp: Option<Stamp>,
) -> Option<ModuleView> {
    match (stamp, table::get(cache, path)) {
        (Some(now), Some((read, m))) => if read == now {
            Some(m)
        } else {
            None
        },
        _ => None,
    }
}

/// The cache once a module has been read from a file. A file without a stamp is
/// not remembered.
pub open spec fn remembering(
    cache: Rows<(Stamp, ModuleView)>,
    path: Text,
    stamp: Option<Stamp>,
    m: ModuleView,
) -> Rows<(Stamp, ModuleView)> {
    match stamp {
        Some(s) => table::put(cache, path, (s, m)),
        None => cache,
    }
}

/// The module that a file declares, under the path that messages show.
pub open spec fn extracted(
    root: Text,
    path: Text,
    stmts: Seq<tree::StatementView>,
    broken: Option<SyntaxView>,
) -> Option<ModuleView> {
    match extract::extraction(path, stmts, broken) {
        Some(m) => Some(ModuleView { file: paths::shown(root, path), ..m }),
        None => None,
    }
}

/// A project of which nothing was read.
pub open spec fn nothing_read(
    root: Text,
    entries: Rows<Seq<Text>>,
    layout: LayoutView,
) -> StateView {
    StateView { root, entries, layout, cache: Seq::empty() }
}

/// A project with another map.
pub open spec fn reloaded(s: StateView, entries: Rows<Seq<Text>>) -> StateView {
    StateView { entries, cache: Seq::empty(), ..s }
}

/// A project whose files that are gone are forgotten.
pub open spec fn retained(s: StateView, seen: Seq<Text>) -> StateView {
    StateView { cache: table::kept(s.cache, seen), ..s }
}

/// A project once a file was read, whether or not it declares a module.
pub open spec fn having_read(
    s: StateView,
    path: Text,
    stamp: Option<Stamp>,
    found: Option<ModuleView>,
) -> StateView {
    match found {
        Some(m) => StateView { cache: remembering(s.cache, path, stamp, m), ..s },
        None => s,
    }
}

impl State {
    /// The cache is in order, and the layout has a folder for every side.
    pub open spec fn wf(&self) -> bool {
        &&& self.cache.wf()
        &&& self.layout.deep_view().complete()
    }

    /// A project whose map comes from this text of the source's file, with
    /// nothing read.
    pub fn new(root: &str, source: &Source, content: &str, layout: Layout) -> (r: Result<
        State,
        MapError,
    >)
        requires
            layout.deep_view().complete(),
        ensures
            match (
                r,
                match source.deep_view() {
                    SourceView::Project(p) => rojo::project_map(p, content@),
                    SourceView::Sourcemap(p) => rojo::sourcemap_map(p, content@),
                },
            ) {
                (Ok(state), Ok(entries)) => state.wf() && state@ == (StateView {
                    root: root@,
                    entries,
                    layout: layout.deep_view(),
                    cache: Seq::empty(),
                }),
                (Err(e), Err(f)) => e.deep_view() == f,
                _ => false,
            },
            r matches Ok(state) ==> state@ == nothing_read(
                root@,
                state@.entries,
                layout.deep_view(),
            ),
    {
        match source.read(content) {
            Ok(map) => Ok(State { root: copy(root), map, layout, cache: Table::new() }),
            Err(e) => Err(e),
        }
    }

    /// A path as messages show it.
    pub fn rel(&self, path: &str) -> (r: String)
        ensures
            r@ == paths::shown(self@.root, path@),
    {
        paths::show(self.root.as_str(), path)
    }

    /// The module that was read from a file, unless the file has changed since.
    pub fn cached(&self, path: &str, stamp: Option<Stamp>) -> (r: Option<Module>)
        ensures
            r.deep_view() == remembered(self@.cache, path@, stamp),
    {
        match stamp {
            Some(now) => match self.cache.get(path) {
                Some(c) => if c.stamp == now {
                    Some(c.module.duplicate())
                } else {
                    None
                },
                None => None,
            },
            None => None,
        }
    }

    /// Reads a module from a parsed file, and remembers it.
    pub fn keep(&mut self, stamp: Option<Stamp>, file: Extractor) -> (r: Result<Module, NoCall>)
        requires
            old(self).wf(),
        ensures
            final(self).wf(),
            match (
                r,
                extracted(
                    old(self)@.root,
                    file.path@,
                    file.source.stmts.deep_view(),
                    file.broken.deep_view(),
                ),
            ) {
                (Ok(m), Some(v)) => m.deep_view() == v && final(self)@ == (StateView {
                    cache: remembering(old(self)@.cache, file.path@, stamp, v),
                    ..old(self)@
                }),
                (Err(e), None) => e.file@ == file.path@ && final(self)@ == old(self)@,
                _ => false,
            },
            final(self)@ == having_read(
                old(self)@,
                file.path@,
                stamp,
                extracted(
                    old(self)@.root,
                    file.path@,
                    file.source.stmts.deep_view(),
                    file.broken.deep_view(),
                ),
            ),
    {
        let path = copy(file.path.as_str());
        let mut m = match file.run() {
            Ok(m) => m,
            Err(e) => {
                return Err(e);
            },
        };
        m.file = self.rel(path.as_str());
        if let Some(stamp) = stamp {
            self.cache.put(path.as_str(), Cached { stamp, module: m.duplicate() });
        }
        Ok(m)
    }

    /// Reads a module from a file with this text, and remembers it.
    pub fn extract(&mut self, path: &str, stamp: Option<Stamp>, content: &str) -> (r: Result<
        Module,
        NoCall,
    >)
        requires
            old(self).wf(),
        ensures
            final(self).wf(),
            match (
                r,
                extracted(
                    old(self)@.root,
                    path@,
                    syntax::parsed(content@).stmts,
                    syntax::fault_in(path@, content@),
                ),
            ) {
                (Ok(m), Some(v)) => m.deep_view() == v && final(self)@ == (StateView {
                    cache: remembering(old(self)@.cache, path@, stamp, v),
                    ..old(self)@
                }),
                (Err(e), None) => e.file@ == path@ && final(self)@ == old(self)@,
                _ => false,
            },
            final(self)@ == having_read(
                old(self)@,
                path@,
                stamp,
                extracted(
                    old(self)@.root,
                    path@,
                    syntax::parsed(content@).stmts,
                    syntax::fault_in(path@, content@),
                ),
            ),
    {
        self.keep(stamp, Extractor::new(path, content))
    }

    /// Forgets the files that are gone.
    pub fn retain(&mut self, seen: &Vec<String>)
        requires
            old(self).wf(),
        ensures
            final(self).wf(),
            final(self)@ == (StateView {
                cache: table::kept(old(self)@.cache, seen.deep_view()),
                ..old(self)@
            }),
            final(self)@ == retained(old(self)@, seen.deep_view()),
    {
        self.cache.retain(seen);
    }

    /// Takes another map. Nothing that was read under the old one is kept.
    pub fn reload(&mut self, map: RojoMap)
        requires
            old(self).wf(),
        ensures
            final(self).wf(),
            final(self)@ == (StateView { entries: map@, cache: Seq::empty(), ..old(self)@ }),
            final(self)@ == reloaded(old(self)@, map@),
    {
        self.map = map;
        self.cache = Table::new();
    }

    /// The modules among these that were never read.
    pub fn fresh(&self, modules: &Vec<String>) -> (r: Vec<String>)
        ensures
            r.deep_view() == unread(modules.deep_view(), self@.cache),
    {
        let ghost all = modules.deep_view();
        let mut out: Vec<String> = Vec::new();
        let mut i: usize = 0;
        assert(out.deep_view() =~= Seq::empty());
        while i < modules.len()
            invariant
                all == modules.deep_view(),
                i <= all.len(),
                out.deep_view() == unread(all.take(i as int), self@.cache),
            decreases modules.len() - i,
        {
            assert(all.take(i + 1).drop_last() =~= all.take(i as int));
            assert(all[i as int] == modules@[i as int]@);
            if self.cache.get(modules[i].as_str()).is_none() {
                text::push(&mut out, copy(modules[i].as_str()));
            }
            i = i + 1;
        }
        assert(all.take(i as int) =~= all);
        out
    }
}

/// The modules among these that the cache does not know, in order.
pub open spec fn unread(modules: Seq<Text>, cache: Rows<(Stamp, ModuleView)>) -> Seq<Text>
    decreases modules.len(),
{
    if modules.len() == 0 {
        Seq::empty()
    } else {
        let some = unread(modules.drop_last(), cache);
        if table::get(cache, modules.last()) is None {
            some.push(modules.last())
        } else {
            some
        }
    }
}

/// A module that was read is given back as long as its file has the same stamp,
/// and is not once it has another. Other files are not touched.
pub proof fn law_cache(
    cache: Rows<(Stamp, ModuleView)>,
    path: Text,
    stamp: Stamp,
    m: ModuleView,
    other: Text,
    now: Option<Stamp>,
)
    requires
        table::sorted(cache),
    ensures
        remembered(remembering(cache, path, Some(stamp), m), path, Some(stamp)) == Some(m),
        now != Some(stamp) ==> remembered(
            remembering(cache, path, Some(stamp), m),
            path,
            now,
        ) is None,
        other != path ==> remembered(remembering(cache, path, Some(stamp), m), other, now)
            == remembered(cache, other, now),
{
    table::law_get_put(cache, path, (stamp, m), path);
    table::law_get_put(cache, path, (stamp, m), other);
}

/// A file that is gone is forgotten, and nothing else is.
pub proof fn law_retain(
    cache: Rows<(Stamp, ModuleView)>,
    seen: Seq<Text>,
    path: Text,
    now: Option<Stamp>,
)
    requires
        table::sorted(cache),
    ensures
        remembered(table::kept(cache, seen), path, now) == (if seen.contains(path) {
            remembered(cache, path, now)
        } else {
            None
        }),
{
    table::law_get_kept(cache, seen, path);
}

} // verus!
