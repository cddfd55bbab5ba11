//! Parsed file records consumed by the graph builder: declared type and
//! impl names, and import/export directives. Item payloads are opaque to
//! this core.

use crate::strutil::seq_views;
use vstd::prelude::*;

verus! {

/// Opaque payload of a declared item; nothing of it is consumed here.
#[derive(Debug)]
pub struct Item {}

impl Item {
    /// A placeholder payload.
    pub fn dummy() -> (r: Item) {
        Item {  }
    }
}

/// An import directive entry: all items under the boundary at `path`
/// (resolved from the importing file's own boundary) whose names match the
/// glob pattern.
#[derive(Debug)]
pub struct Import {
    pub path: Vec<String>,
    pub glob: String,
}

/// A file-level directive. Only `Import` and `Export` are consumed by this
/// core; `FailFast` and `NoParallelise` are consumed elsewhere.
#[derive(Debug)]
pub enum Directive {
    Import(Vec<Import>),
    Export(Vec<String>),
    FailFast,
    NoParallelise,
}

/// A parsed file: its declared types and impls, and its directives.
#[derive(Debug)]
pub struct File {
    pub types: Vec<(String, Item)>,
    pub impls: Vec<(String, Item)>,
    pub directives: Vec<Directive>,
}

impl File {
    /// A file with no declarations and no directives.
    pub fn empty() -> (r: File)
        ensures
            r.types@.len() == 0,
            r.impls@.len() == 0,
            r.directives@.len() == 0,
    {
        File { types: Vec::new(), impls: Vec::new(), directives: Vec::new() }
    }
}

/// A batch of files grouped by filesystem path, in order.
pub type FsMap = Vec<(String, Vec<File>)>;

/// The path segments of an import, as character sequences.
pub open spec fn import_path_views(i: Import) -> Seq<Seq<char>> {
    seq_views(i.path@)
}

/// Copy a vector of strings.
pub fn clone_strings(v: &Vec<String>) -> (r: Vec<String>)
    ensures
        seq_views(r@) == seq_views(v@),
{
    let mut r: Vec<String> = Vec::new();
    let mut i: usize = 0;
    while i < v.len()
        invariant
            i <= v@.len(),
            r@.len() == i,
            forall|j: int| 0 <= j < i ==> (#[trigger] r@[j])@ == v@[j]@,
        decreases v@.len() - i,
    {
        r.push(v[i].clone());
        i += 1;
    }
    proof {
        assert(seq_views(r@) =~= seq_views(v@));
    }
    r
}

/// Copy an import entry.
pub fn clone_import(im: &Import) -> (r: Import)
    ensures
        import_path_views(r) == import_path_views(*im),
        r.glob@ == im.glob@,
{
    Import { path: clone_strings(&im.path), glob: im.glob.clone() }
}

} // verus!
