//! What the generator knows of one module.

use vstd::prelude::*;

use crate::text::{self, copy, copy_all, Text};

verus! {

/// Something in a module that could not be typed.
#[derive(Debug, Clone)]
pub struct Issue {
    pub line: usize,
    pub column: usize,
    pub message: String,
}

/// A method, with its signature as a type.
#[derive(Debug, Clone)]
pub struct Method {
    pub name: String,
    pub signature: String,
}

/// A field of `self`, with its type.
#[derive(Debug, Clone)]
pub struct Field {
    pub name: String,
    pub ty: String,
}

/// `local alias = require(expr)`.
#[derive(Debug, Clone)]
pub struct Import {
    pub alias: String,
    pub expr: String,
}

/// `local alias = game:GetService("service")`.
#[derive(Debug, Clone)]
pub struct Service {
    pub alias: String,
    pub service: String,
}

/// A type declared in the module, as it is written there.
#[derive(Debug, Clone)]
pub struct LocalType {
    pub name: String,
    pub text: String,
}

/// A module.
#[derive(Debug, Clone)]
pub struct Module {
    pub id: String,
    pub kind: String,
    pub file: String,
    pub services: Vec<Service>,
    pub requires: Vec<Import>,
    pub local_types: Vec<LocalType>,
    pub methods: Vec<Method>,
    pub fields: Vec<Field>,
    pub dependencies: Vec<String>,
    pub declared_require: Vec<String>,
    pub issues: Vec<Issue>,
}

/// What an `Issue` holds.
pub struct IssueView {
    pub line: usize,
    pub column: usize,
    pub message: Text,
}

/// What a `LocalType` holds.
pub struct LocalTypeView {
    pub name: Text,
    pub text: Text,
}

/// What a `Service` holds.
pub struct ServiceView {
    pub alias: Text,
    pub service: Text,
}

/// What an `Import` holds.
pub struct ImportView {
    pub alias: Text,
    pub expr: Text,
}

/// What a `Module` holds. A field and a method are a name with a type.
pub struct ModuleView {
    pub id: Text,
    pub kind: Text,
    pub file: Text,
    pub services: Seq<ServiceView>,
    pub requires: Seq<ImportView>,
    pub local_types: Seq<LocalTypeView>,
    pub methods: Seq<(Text, Text)>,
    pub fields: Seq<(Text, Text)>,
    pub dependencies: Seq<Text>,
    pub declared_require: Seq<Text>,
    pub issues: Seq<IssueView>,
}

impl DeepView for Issue {
    type V = IssueView;

    open spec fn deep_view(&self) -> IssueView {
        IssueView { line: self.line, column: self.column, message: self.message@ }
    }
}

impl DeepView for Method {
    type V = (Text, Text);

    open spec fn deep_view(&self) -> (Text, Text) {
        (self.name@, self.signature@)
    }
}

impl DeepView for Field {
    type V = (Text, Text);

    open spec fn deep_view(&self) -> (Text, Text) {
        (self.name@, self.ty@)
    }
}

impl DeepView for Import {
    type V = ImportView;

    open spec fn deep_view(&self) -> ImportView {
        ImportView { alias: self.alias@, expr: self.expr@ }
    }
}

impl DeepView for Service {
    type V = ServiceView;

    open spec fn deep_view(&self) -> ServiceView {
        ServiceView { alias: self.alias@, service: self.service@ }
    }
}

impl DeepView for LocalType {
    type V = LocalTypeView;

    open spec fn deep_view(&self) -> LocalTypeView {
        LocalTypeView { name: self.name@, text: self.text@ }
    }
}

impl DeepView for Module {
    type V = ModuleView;

    open spec fn deep_view(&self) -> ModuleView {
        ModuleView {
            id: self.id@,
            kind: self.kind@,
            file: self.file@,
            services: self.services.deep_view(),
            requires: self.requires.deep_view(),
            local_types: self.local_types.deep_view(),
            methods: self.methods.deep_view(),
            fields: self.fields.deep_view(),
            dependencies: self.dependencies.deep_view(),
            declared_require: self.declared_require.deep_view(),
            issues: self.issues.deep_view(),
        }
    }
}

/// A value of which another one can be made that holds the same.
pub trait Duplicate: DeepView + Sized {
    /// A value of its own that holds the same.
    fn duplicate(&self) -> (r: Self)
        ensures
            r.deep_view() == self.deep_view(),
    ;
}

/// A list of its own that holds the same.
pub fn duplicate_all<T: Duplicate>(list: &Vec<T>) -> (r: Vec<T>)
    ensures
        r.deep_view() == list.deep_view(),
{
    let mut out: Vec<T> = Vec::new();
    let mut i: usize = 0;
    while i < list.len()
        invariant
            i <= list@.len(),
            out.deep_view() =~= list.deep_view().take(i as int),
        decreases list.len() - i,
    {
        text::push(&mut out, list[i].duplicate());
        i = i + 1;
    }
    assert(list.deep_view().take(i as int) =~= list.deep_view());
    out
}

impl Duplicate for Issue {
    fn duplicate(&self) -> (r: Self) {
        Issue { line: self.line, column: self.column, message: copy(self.message.as_str()) }
    }
}

impl Duplicate for Method {
    fn duplicate(&self) -> (r: Self) {
        Method { name: copy(self.name.as_str()), signature: copy(self.signature.as_str()) }
    }
}

impl Duplicate for Field {
    fn duplicate(&self) -> (r: Self) {
        Field { name: copy(self.name.as_str()), ty: copy(self.ty.as_str()) }
    }
}

impl Duplicate for Import {
    fn duplicate(&self) -> (r: Self) {
        Import { alias: copy(self.alias.as_str()), expr: copy(self.expr.as_str()) }
    }
}

impl Duplicate for Service {
    fn duplicate(&self) -> (r: Self) {
        Service { alias: copy(self.alias.as_str()), service: copy(self.service.as_str()) }
    }
}

impl Duplicate for LocalType {
    fn duplicate(&self) -> (r: Self) {
        LocalType { name: copy(self.name.as_str()), text: copy(self.text.as_str()) }
    }
}

impl Duplicate for Module {
    fn duplicate(&self) -> (r: Self) {
        Module {
            id: copy(self.id.as_str()),
            kind: copy(self.kind.as_str()),
            file: copy(self.file.as_str()),
            services: duplicate_all(&self.services),
            requires: duplicate_all(&self.requires),
            local_types: duplicate_all(&self.local_types),
            methods: duplicate_all(&self.methods),
            fields: duplicate_all(&self.fields),
            dependencies: copy_all(&self.dependencies),
            declared_require: copy_all(&self.declared_require),
            issues: duplicate_all(&self.issues),
        }
    }
}

} // verus!
