//! Where the instance tree comes from, and where the project is.

use vstd::prelude::*;

use crate::layout::{self, Layout, LayoutView};
use crate::paths::{self, join_path};
use crate::rojo::{self, MapError, RojoMap};
use crate::text::{copy, Text};

verus! {

/// The name of a project file.
pub open spec fn project_file() -> Text {
    "default.project.json"@
}

/// Where the instance tree comes from.
///
/// A project file describes folders; a sourcemap is resolved already. Both give
/// the same map, but who keeps them up to date is another matter, so it is
/// known where the map came from.
#[derive(Debug, Clone)]
pub enum Source {
    Project(String),
    Sourcemap(String),
}

/// What a `Source` is.
pub enum SourceView {
    Project(Text),
    Sourcemap(Text),
}

impl DeepView for Source {
    type V = SourceView;

    open spec fn deep_view(&self) -> SourceView {
        match self {
            Source::Project(p) => SourceView::Project(p@),
            Source::Sourcemap(p) => SourceView::Sourcemap(p@),
        }
    }
}

impl SourceView {
    /// The sourcemap on disk is made from this source.
    pub open spec fn derives(self) -> bool {
        match self {
            SourceView::Project(_) => true,
            SourceView::Sourcemap(_) => false,
        }
    }

    /// The file that the map is read from.
    pub open spec fn at(self) -> Text {
        match self {
            SourceView::Project(p) => p,
            SourceView::Sourcemap(p) => p,
        }
    }
}

/// The source that was asked for: a sourcemap, seen from the root unless it is
/// given as an absolute path, or else the project file at the root.
pub open spec fn source_of(sourcemap: Option<Text>, absolute: bool, root: Text) -> SourceView {
    match sourcemap {
        Some(p) => SourceView::Sourcemap(
            if absolute {
                p
            } else {
                paths::path_join(root, p)
            },
        ),
        None => SourceView::Project(paths::path_join(root, project_file())),
    }
}

impl Source {
    /// The source that was asked for. `absolute` says that the sourcemap is given
    /// as an absolute path.
    pub fn from(sourcemap: Option<&str>, absolute: bool, root: &str) -> (r: Source)
        ensures
            r.deep_view() == source_of(sourcemap.deep_view(), absolute, root@),
    {
        match sourcemap {
            Some(p) => Source::Sourcemap(
                if absolute {
                    copy(p)
                } else {
                    join_path(root, p)
                },
            ),
            None => Source::Project(join_path(root, "default.project.json")),
        }
    }

    /// The file that the map is read from.
    pub fn file(&self) -> (r: &String)
        ensures
            r@ == self.deep_view().at(),
    {
        match self {
            Source::Project(p) => p,
            Source::Sourcemap(p) => p,
        }
    }

    /// The map, from the text of the file.
    pub fn read(&self, content: &str) -> (r: Result<RojoMap, MapError>)
        ensures
            rojo::outcome(r) == (match self.deep_view() {
                SourceView::Project(p) => rojo::project_map(p, content@),
                SourceView::Sourcemap(p) => rojo::sourcemap_map(p, content@),
            }),
            r matches Ok(map) ==> map.wf(),
    {
        match self {
            Source::Project(p) => RojoMap::read(p.as_str(), content),
            Source::Sourcemap(p) => RojoMap::from_sourcemap(p.as_str(), content),
        }
    }

    /// Whether the sourcemap on disk is made from this source, so that it may be
    /// made again. Where it is the source, it belongs to who writes it.
    pub fn owns_sourcemap(&self) -> (r: bool)
        ensures
            r == (self.deep_view() is Project),
            r == self.deep_view().derives(),
    {
        match self {
            Source::Project(_) => true,
            Source::Sourcemap(_) => false,
        }
    }

    /// Whether folders are translated to the tree, as a project file has it.
    pub fn is_project(&self) -> (r: bool)
        ensures
            r == (self.deep_view() is Project),
    {
        match self {
            Source::Project(_) => true,
            Source::Sourcemap(_) => false,
        }
    }
}

/// The layout that goes with a source, in the folder that was asked for or in
/// the usual one.
pub open spec fn layout_of(folder: Option<Text>, source: SourceView) -> LayoutView {
    match source {
        SourceView::Project(_) => layout::rogen_layout(
            match folder {
                Some(f) => f,
                None => "src"@,
            },
        ),
        SourceView::Sourcemap(_) => layout::mirror_layout(
            match folder {
                Some(f) => f,
                None => "sync"@,
            },
        ),
    }
}

/// The layout that goes with a source: with a sourcemap the disk is the tree,
/// with a project file it is translated.
pub fn layout_for(folder: Option<&str>, source: &Source) -> (r: Layout)
    ensures
        r.deep_view() == layout_of(folder.deep_view(), source.deep_view()),
        r.deep_view().complete(),
{
    if source.is_project() {
        Layout::rogen(
            match folder {
                Some(f) => f,
                None => "src",
            },
        )
    } else {
        Layout::mirror(
            match folder {
                Some(f) => f,
                None => "sync",
            },
        )
    }
}

/// Where the project is, as far as the flags tell.
pub enum Root {
    /// Here.
    At(String),
    /// In the current directory.
    Current,
    /// In the current directory, or the nearest one above it that has a project
    /// file.
    Search,
    /// A sourcemap was asked for that does not exist.
    NoSourcemap(String),
    /// A folder was asked for that has no project file.
    NoProject(String),
}

/// What a `Root` is.
pub enum RootView {
    At(Text),
    Current,
    Search,
    NoSourcemap(Text),
    NoProject(Text),
}

impl DeepView for Root {
    type V = RootView;

    open spec fn deep_view(&self) -> RootView {
        match self {
            Root::At(p) => RootView::At(p@),
            Root::Current => RootView::Current,
            Root::Search => RootView::Search,
            Root::NoSourcemap(p) => RootView::NoSourcemap(p@),
            Root::NoProject(p) => RootView::NoProject(p@),
        }
    }
}

/// Where the project is. With a sourcemap it is the folder that holds it, for
/// the paths inside are seen from there, unless a folder was asked for, which
/// then needs no project file.
pub open spec fn root_of(
    sourcemap: Option<Text>,
    sourcemap_exists: bool,
    project: Option<Text>,
    project_exists: bool,
) -> RootView {
    match (sourcemap, project) {
        (Some(_), Some(p)) => RootView::At(p),
        (Some(s), None) => if !sourcemap_exists {
            RootView::NoSourcemap(s)
        } else {
            match paths::parent_of(s) {
                Some(p) => if p.len() > 0 {
                    RootView::At(p)
                } else {
                    RootView::Current
                },
                None => RootView::Current,
            }
        },
        (None, Some(p)) => if project_exists {
            RootView::At(p)
        } else {
            RootView::NoProject(p)
        },
        (None, None) => RootView::Search,
    }
}

/// Where the project is, from the flags and from whether the sourcemap, and a
/// project file in the folder, exist.
pub fn project_root(
    sourcemap: Option<&str>,
    sourcemap_exists: bool,
    project: Option<&str>,
    project_exists: bool,
) -> (r: Root)
    ensures
        r.deep_view() == root_of(
            sourcemap.deep_view(),
            sourcemap_exists,
            project.deep_view(),
            project_exists,
        ),
{
    match (sourcemap, project) {
        (Some(_), Some(p)) => Root::At(copy(p)),
        (Some(s), None) => {
            if !sourcemap_exists {
                return Root::NoSourcemap(copy(s));
            }
            match paths::parent(s) {
                Some(p) => if p.as_str().is_empty() {
                    Root::Current
                } else {
                    Root::At(p)
                },
                None => Root::Current,
            }
        },
        (None, Some(p)) => if project_exists {
            Root::At(copy(p))
        } else {
            Root::NoProject(copy(p))
        },
        (None, None) => Root::Search,
    }
}

/// One step of the search for a project file.
pub enum Climb {
    /// It is here.
    Found,
    /// Look in the directory above.
    Up(String),
    /// It is nowhere.
    Lost,
}

/// What a `Climb` is.
pub enum ClimbView {
    Found,
    Up(Text),
    Lost,
}

impl DeepView for Climb {
    type V = ClimbView;

    open spec fn deep_view(&self) -> ClimbView {
        match self {
            Climb::Found => ClimbView::Found,
            Climb::Up(p) => ClimbView::Up(p@),
            Climb::Lost => ClimbView::Lost,
        }
    }
}

/// Where to look next for a project file.
pub open spec fn climbed(current: Text, exists_here: bool) -> ClimbView {
    if exists_here {
        ClimbView::Found
    } else {
        match paths::parent_of(current) {
            Some(p) => ClimbView::Up(p),
            None => ClimbView::Lost,
        }
    }
}

/// Where to look next for a project file.
pub fn climb(current: &str, exists_here: bool) -> (r: Climb)
    ensures
        r.deep_view() == climbed(current@, exists_here),
{
    if exists_here {
        Climb::Found
    } else {
        match paths::parent(current) {
            Some(p) => Climb::Up(p),
            None => Climb::Lost,
        }
    }
}

/// The search for a project file has an end: each step is shorter by one
/// component.
pub proof fn law_climb_ends(current: Text)
    ensures
        climbed(current, false) matches ClimbView::Up(p) ==> paths::parts(p).len()
            == paths::parts(current).len() - 1,
{
    if paths::parent_of(current) is Some {
        paths::law_parent(current);
    }
}

} // verus!
