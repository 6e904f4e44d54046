//! The per-file slice of the index: a file's dependencies and its
//! top-level symbols.

use vstd::prelude::*;

use crate::index::index_symbol::{sym_view, syms_view, IndexSymbol, SymView};

verus! {

/// The identity of an indexed file: its base name.  Two files with the
/// same base name in different directories collide by design.
#[derive(Debug)]
pub struct IndexFileRef(String);

impl View for IndexFileRef {
    type V = Seq<char>;

    closed spec fn view(&self) -> Seq<char> {
        self.0@
    }
}

impl IndexFileRef {
    /// A reference spelled by a string slice.
    pub fn from(value: &str) -> (r: IndexFileRef)
        ensures
            r@ == value@,
    {
        IndexFileRef(value.to_owned())
    }

    /// A reference spelled by an owned string.
    pub fn from_string(value: String) -> (r: IndexFileRef)
        ensures
            r@ == value@,
    {
        IndexFileRef(value)
    }
}

impl PartialEq for IndexFileRef {
    fn eq(&self, other: &Self) -> (r: bool) {
        self.0 == other.0
    }
}

impl vstd::std_specs::cmp::PartialEqSpecImpl for IndexFileRef {
    open spec fn obeys_eq_spec() -> bool {
        true
    }

    open spec fn eq_spec(&self, other: &IndexFileRef) -> bool {
        self@ == other@
    }
}

impl Clone for IndexFileRef {
    fn clone(&self) -> (r: Self)
        ensures
            r == *self,
    {
        IndexFileRef(self.0.clone())
    }
}

/// The reading of a file reference sequence.
pub open spec fn deps_view(ds: Seq<IndexFileRef>) -> Seq<Seq<char>> {
    Seq::new(ds.len(), |i: int| ds[i]@)
}

/// A source file's contribution to the index.
#[derive(Debug)]
pub struct IndexFile {
    pub path: String,
    pub dependencies: Vec<IndexFileRef>,
    pub symbols: Vec<IndexSymbol>,
}

impl IndexFile {
    /// An empty entry for the file at `path`.
    pub fn new(path: String) -> (r: IndexFile)
        ensures
            r.path == path,
            r.dependencies@ =~= Seq::<IndexFileRef>::empty(),
            r.symbols@ =~= Seq::<IndexSymbol>::empty(),
    {
        IndexFile { path, dependencies: Vec::new(), symbols: Vec::new() }
    }

    /// Every symbol in the file is well-formed.
    pub open spec fn wf(self) -> bool {
        forall|i: int| 0 <= i < self.symbols@.len() ==> (#[trigger] sym_view(self.symbols@[i])).wf()
    }

    /// The mathematical reading of the file.
    pub open spec fn view_file(self) -> FileView {
        FileView {
            path: self.path@,
            deps: deps_view(self.dependencies@),
            symbols: syms_view(self.symbols@),
        }
    }
}

/// The reading of an index file: its path, dependency names, and symbols.
#[verifier::ext_equal]
pub struct FileView {
    pub path: Seq<char>,
    pub deps: Seq<Seq<char>>,
    pub symbols: Seq<SymView>,
}

} // verus!
