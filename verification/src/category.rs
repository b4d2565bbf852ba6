//! Where a value came from: the kind of source, and the source itself.
use vstd::prelude::*;
use vstd::string::*;

verus! {

/// The kind of source that set a value.
#[derive(Debug, Clone, PartialEq, Eq)]
pub enum Category {
    /// The compiled-in defaults.
    Default,
    /// A configuration file or an in-memory document in a file format.
    File,
    /// Process environment variables.
    Env,
    /// The command line.
    Cli,
    /// A source of the user's own, with its label.
    Custom(String),
}

/// The model of a category.
pub enum CategoryView {
    Default,
    File,
    Env,
    Cli,
    Custom(Seq<char>),
}

impl View for Category {
    type V = CategoryView;

    open spec fn view(&self) -> CategoryView {
        match self {
            Category::Default => CategoryView::Default,
            Category::File => CategoryView::File,
            Category::Env => CategoryView::Env,
            Category::Cli => CategoryView::Cli,
            Category::Custom(s) => CategoryView::Custom(s@),
        }
    }
}

/// The lower-case label of a category; a custom category is its own label.
pub open spec fn category_label(c: Category) -> Seq<char> {
    match c {
        Category::Default => "default"@,
        Category::File => "file"@,
        Category::Env => "env"@,
        Category::Cli => "cli"@,
        Category::Custom(s) => s@,
    }
}

impl Category {
    /// The lower-case label: `"default"`, `"file"`, `"env"`, `"cli"`, or the
    /// custom label.
    pub fn as_str(&self) -> (r: &str)
        ensures
            r@ == category_label(*self),
    {
        match self {
            Category::Default => "default",
            Category::File => "file",
            Category::Env => "env",
            Category::Cli => "cli",
            Category::Custom(s) => s.as_str(),
        }
    }

    /// An equal copy.
    pub fn duplicate(&self) -> (r: Category)
        ensures
            r == *self,
    {
        match self {
            Category::Default => Category::Default,
            Category::File => Category::File,
            Category::Env => Category::Env,
            Category::Cli => Category::Cli,
            Category::Custom(s) => Category::Custom(s.clone()),
        }
    }
}

/// A source as a value's history records it: its name and its category.
#[derive(Debug, Clone, PartialEq, Eq)]
pub struct SourceInfo {
    pub name: String,
    pub category: Category,
}

impl View for SourceInfo {
    type V = (Seq<char>, CategoryView);

    open spec fn view(&self) -> (Seq<char>, CategoryView) {
        (self.name@, self.category@)
    }
}

/// The model of the defaults source.
pub open spec fn defaults_source_view() -> (Seq<char>, CategoryView) {
    ("default"@, CategoryView::Default)
}

impl SourceInfo {
    pub fn new(name: String, category: Category) -> (r: SourceInfo)
        ensures
            r.name == name,
            r.category == category,
    {
        SourceInfo { name, category }
    }

    /// The human-readable label of the source.
    pub fn name(&self) -> (r: &str)
        ensures
            r@ == self.name@,
    {
        self.name.as_str()
    }

    /// The kind of the source.
    pub fn category(&self) -> (r: Category)
        ensures
            r == self.category,
    {
        self.category.duplicate()
    }

    /// An equal copy.
    pub fn duplicate(&self) -> (r: SourceInfo)
        ensures
            r == *self,
    {
        SourceInfo { name: self.name.clone(), category: self.category.duplicate() }
    }
}

/// The source that the defaults layer of every leaf records.
pub fn defaults_source() -> (r: SourceInfo)
    ensures
        r@ == defaults_source_view(),
{
    SourceInfo { name: String::from_str("default"), category: Category::Default }
}

} // verus!
