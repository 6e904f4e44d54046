//! The workspace symbol index: symbol model, per-file symbol trees,
//! structural diffs, name-keyed lookup tables, and the store that ties
//! them together.
//!
//! The store keeps one `IndexFile` per indexed source file and a set of
//! lookup tables derived from them.  The tables are mutated only by
//! applying the structural diff between the old and the new contents of a
//! file, and the contract of `update_file` pins the table contents after
//! every update.

pub mod index_file;
pub mod index_symbol;
pub mod indexer;
pub mod laws;
pub mod lookup_tables;
pub mod symbols_diff;
pub mod workspace;

pub use index_file::{FileView, IndexFile, IndexFileRef};
pub use index_symbol::{
    ClassSymbol, IndexSymbol, IndexSymbolRef, IndexSymbolSnapshot, IndexSymbolType, MethodKind,
    MethodSymbol, PropertySymbol, RefView, SymView, SymbolName, SymbolPath,
};
pub use indexer::{Indexer, IndexerConfig, IndexerObserver, IndexerState};
pub use lookup_tables::{LookupTables, TablesView};
pub use symbols_diff::SymbolsDiff;
pub use workspace::{ProjectInfo, WorkspaceInfo};

use vstd::prelude::*;

use crate::index::index_symbol::{lemma_syms_view_index, lemma_syms_view_len, sym_view, syms_view};
use crate::index::lookup_tables::{bucket_insert_spec, bucket_remove_path_spec};
use crate::index::symbols_diff::{added_symbols, diff_symbols, removed_symbols};

verus! {

/// The map read off the files table.
pub open spec fn files_map(es: Seq<(IndexFileRef, IndexFile)>) -> Map<Seq<char>, FileView>
    decreases es.len(),
{
    if es.len() == 0 {
        Map::empty()
    } else {
        files_map(es.drop_last()).insert(es.last().0@, es.last().1.view_file())
    }
}

pub open spec fn unique_file_keys(es: Seq<(IndexFileRef, IndexFile)>) -> bool {
    forall|i: int, j: int|
        0 <= i < j < es.len() ==> (#[trigger] es[i].0@) != (#[trigger] es[j].0@)
}

pub proof fn lemma_files_map_contains(es: Seq<(IndexFileRef, IndexFile)>, k: Seq<char>)
    ensures
        files_map(es).contains_key(k) <==> exists|i: int|
            0 <= i < es.len() && (#[trigger] es[i].0@) == k,
    decreases es.len(),
{
    if es.len() > 0 {
        lemma_files_map_contains(es.drop_last(), k);
        assert(forall|i: int| 0 <= i < es.len() - 1 ==> es.drop_last()[i] == es[i]);
        if files_map(es).contains_key(k) && es.last().0@ != k {
            let i = choose|i: int| 0 <= i < es.drop_last().len() && (#[trigger] es.drop_last()[i].0@)
                == k;
            assert(es[i].0@ == k);
        }
    }
}

pub proof fn lemma_files_map_value(es: Seq<(IndexFileRef, IndexFile)>, i: int)
    requires
        unique_file_keys(es),
        0 <= i < es.len(),
    ensures
        files_map(es).contains_key(es[i].0@),
        files_map(es)[es[i].0@] == es[i].1.view_file(),
    decreases es.len(),
{
    if i == es.len() - 1 {
    } else {
        assert(forall|a: int| 0 <= a < es.len() - 1 ==> es.drop_last()[a] == es[a]);
        lemma_files_map_value(es.drop_last(), i);
        assert(es.last().0@ != es[i].0@);
    }
}

pub proof fn lemma_files_map_remove(es: Seq<(IndexFileRef, IndexFile)>, i: int)
    requires
        unique_file_keys(es),
        0 <= i < es.len(),
    ensures
        files_map(es.subrange(0, i) + es.subrange(i + 1, es.len() as int)) == files_map(es).remove(
            es[i].0@,
        ),
        unique_file_keys(es.subrange(0, i) + es.subrange(i + 1, es.len() as int)),
{
    let es2 = es.subrange(0, i) + es.subrange(i + 1, es.len() as int);
    let k = es[i].0@;
    assert(unique_file_keys(es2)) by {
        assert(forall|a: int|
            0 <= a < es2.len() ==> #[trigger] es2[a] == (if a < i {
                es[a]
            } else {
                es[a + 1]
            }));
    }
    assert forall|k2: Seq<char>| #[trigger] files_map(es2).dom().contains(k2) implies files_map(
        es,
    ).remove(k).dom().contains(k2) && files_map(es2)[k2] == files_map(es).remove(k)[k2] by {
        lemma_files_map_contains(es2, k2);
        let a = choose|a: int| 0 <= a < es2.len() && (#[trigger] es2[a].0@) == k2;
        let b: int = if a < i {
            a
        } else {
            a + 1
        };
        assert(es[b] == es2[a]);
        assert(k2 != k);
        lemma_files_map_value(es2, a);
        lemma_files_map_value(es, b);
    }
    assert forall|k2: Seq<char>| #[trigger] files_map(es).remove(k).dom().contains(
        k2,
    ) implies files_map(es2).dom().contains(k2) by {
        lemma_files_map_contains(es, k2);
        lemma_files_map_contains(es2, k2);
        let b = choose|b: int| 0 <= b < es.len() && (#[trigger] es[b].0@) == k2;
        let a: int = if b < i {
            b
        } else {
            b - 1
        };
        assert(es2[a] == es[b]);
    }
    assert(files_map(es2) =~= files_map(es).remove(k));
}

/// The effect on the tables of removing one member symbol.
pub open spec fn strip_member(t: TablesView, m: SymView) -> TablesView {
    match m {
        SymView::Method(mm) => t.with_methods(
            mm.kind,
            bucket_remove_path_spec(t.methods(mm.kind), mm.path.last(), mm.path),
        ),
        SymView::Property(p) => TablesView {
            properties: bucket_remove_path_spec(t.properties, p.path.last(), p.path),
            ..t
        },
        SymView::Class(_) => t,
    }
}

pub open spec fn strip_members(t: TablesView, ms: Seq<SymView>) -> TablesView
    decreases ms.len(),
{
    if ms.len() == 0 {
        t
    } else {
        strip_member(strip_members(t, ms.drop_last()), ms.last())
    }
}

/// The effect on the tables of removing one diffed symbol: a removed
/// class first sheds its members, then its own entry.
pub open spec fn strip_one(t: TablesView, s: SymView) -> TablesView {
    match s {
        SymView::Class(c) => {
            let t1 = strip_members(t, c.members);
            TablesView { classes: t1.classes.remove(c.name), ..t1 }
        },
        _ => strip_member(t, s),
    }
}

pub open spec fn strip_all(t: TablesView, ss: Seq<SymView>) -> TablesView
    decreases ss.len(),
{
    if ss.len() == 0 {
        t
    } else {
        strip_one(strip_all(t, ss.drop_last()), ss.last())
    }
}

/// The effect on the tables of adding one member symbol from file `fr`.
pub open spec fn add_member(t: TablesView, m: SymView, fr: Seq<char>) -> TablesView {
    match m {
        SymView::Method(mm) => t.with_methods(
            mm.kind,
            bucket_insert_spec(
                t.methods(mm.kind),
                mm.path.last(),
                RefView { file: fr, path: mm.path },
            ),
        ),
        SymView::Property(p) => TablesView {
            properties: bucket_insert_spec(
                t.properties,
                p.path.last(),
                RefView { file: fr, path: p.path },
            ),
            ..t
        },
        SymView::Class(_) => t,
    }
}

pub open spec fn add_members(t: TablesView, ms: Seq<SymView>, fr: Seq<char>) -> TablesView
    decreases ms.len(),
{
    if ms.len() == 0 {
        t
    } else {
        add_member(add_members(t, ms.drop_last(), fr), ms.last(), fr)
    }
}

/// The effect on the tables of adding one diffed symbol: an added class
/// records its own entry, then its members.
pub open spec fn add_one(t: TablesView, s: SymView, fr: Seq<char>) -> TablesView {
    match s {
        SymView::Class(c) => {
            let t1 = TablesView {
                classes: t.classes.insert(c.name, RefView { file: fr, path: seq![c.name] }),
                ..t
            };
            add_members(t1, c.members, fr)
        },
        _ => add_member(t, s, fr),
    }
}

pub open spec fn add_all(t: TablesView, ss: Seq<SymView>, fr: Seq<char>) -> TablesView
    decreases ss.len(),
{
    if ss.len() == 0 {
        t
    } else {
        add_one(add_all(t, ss.drop_last(), fr), ss.last(), fr)
    }
}

/// The tables after one file update: strip what the diff removed, then
/// add what it added under the file's reference.
pub open spec fn table_update(
    t: TablesView,
    old_syms: Seq<SymView>,
    new_syms: Seq<SymView>,
    fr: Seq<char>,
) -> TablesView {
    add_all(strip_all(t, removed_symbols(old_syms, new_syms)), added_symbols(old_syms, new_syms), fr)
}

/// The first file entry carrying a key.
pub open spec fn find_file_entry(es: Seq<(IndexFileRef, IndexFile)>, k: Seq<char>, j: int)
    -> Option<int>
    decreases es.len() - j,
{
    if j < 0 || j >= es.len() {
        None
    } else if es[j].0@ == k {
        Some(j)
    } else {
        find_file_entry(es, k, j + 1)
    }
}

/// The first symbol at or after `j` with the given unqualified name.
pub open spec fn find_top_named(symbols: Seq<IndexSymbol>, n: Seq<char>, j: int) -> Option<int>
    decreases symbols.len() - j,
{
    if j < 0 || j >= symbols.len() {
        None
    } else if sym_view(symbols[j]).name() == n {
        Some(j)
    } else {
        find_top_named(symbols, n, j + 1)
    }
}

/// The first symbol at or after `j` with the given name that projects to
/// the wanted symbol type.
pub open spec fn find_named_projected<T: IndexSymbolType>(
    symbols: Seq<IndexSymbol>,
    n: Seq<char>,
    j: int,
) -> Option<int>
    decreases symbols.len() - j,
{
    if j < 0 || j >= symbols.len() {
        None
    } else if sym_view(symbols[j]).name() == n && T::spec_of_symbol(&symbols[j]) is Some {
        Some(j)
    } else {
        find_named_projected::<T>(symbols, n, j + 1)
    }
}

/// The shared symbol store: the workspace description, one entry per
/// indexed file, and the lookup tables derived from them.
#[derive(Debug)]
pub struct Index {
    workspace: WorkspaceInfo,
    files: Vec<(IndexFileRef, IndexFile)>,
    lookup_tables: LookupTables,
}

impl Index {
    /// The reading of the files table.
    pub closed spec fn spec_files(&self) -> Map<Seq<char>, FileView> {
        files_map(self.files@)
    }

    /// The reading of the lookup tables.
    pub closed spec fn spec_tables(&self) -> TablesView {
        self.lookup_tables@
    }

    /// The stored symbol list of a file, by its reference.
    pub closed spec fn spec_stored_symbols(&self, fr: Seq<char>) -> Seq<IndexSymbol> {
        match find_file_entry(self.files@, fr, 0) {
            Some(j) => self.files@[j].1.symbols@,
            None => Seq::empty(),
        }
    }

    /// Keys unique, every file well-formed, tables well-formed.
    pub closed spec fn wf(&self) -> bool {
        &&& unique_file_keys(self.files@)
        &&& forall|i: int| 0 <= i < self.files@.len() ==> (#[trigger] self.files@[i].1).wf()
        &&& self.lookup_tables.wf()
    }

    /// An index over the given workspace, initially empty.
    pub fn new(workspace: WorkspaceInfo) -> (r: Index)
        ensures
            r.wf(),
            r.spec_files() == Map::<Seq<char>, FileView>::empty(),
            r.spec_tables() == TablesView::empty(),
    {
        Index { workspace, files: Vec::new(), lookup_tables: LookupTables::new() }
    }

    /// An empty index over an empty workspace.
    pub fn make_test_index() -> (r: Index)
        ensures
            r.wf(),
            r.spec_files() == Map::<Seq<char>, FileView>::empty(),
            r.spec_tables() == TablesView::empty(),
    {
        Index::new(WorkspaceInfo::new())
    }

    /// The workspace this index serves.
    /// The workspace description the index was built over.
    pub closed spec fn spec_workspace(&self) -> WorkspaceInfo {
        self.workspace
    }

    pub fn workspace(&self) -> (r: &WorkspaceInfo)
        ensures
            *r == self.spec_workspace(),
    {
        &self.workspace
    }

    /// The lookup tables.
    pub fn lookup_tables(&self) -> (r: &LookupTables)
        ensures
            r@ == self.spec_tables(),
            self.wf() ==> r.wf(),
    {
        &self.lookup_tables
    }

    /// The entry recorded for a file.
    pub fn file(&self, file_ref: &IndexFileRef) -> (r: Option<&IndexFile>)
        requires
            self.wf(),
        ensures
            r is Some <==> self.spec_files().contains_key(file_ref@),
            r matches Some(f) ==> f.view_file() == self.spec_files()[file_ref@] && f.wf()
                && f.symbols@ == self.spec_stored_symbols(file_ref@),
    {
        proof {
            lemma_files_map_contains(self.files@, file_ref@);
        }
        let mut i: usize = 0;
        while i < self.files.len()
            invariant
                i <= self.files@.len(),
                self.wf(),
                forall|j: int| 0 <= j < i ==> (#[trigger] self.files@[j].0@) != file_ref@,
                find_file_entry(self.files@, file_ref@, 0) == find_file_entry(
                    self.files@,
                    file_ref@,
                    i as int,
                ),
            decreases self.files@.len() - i,
        {
            if &self.files[i].0 == file_ref {
                proof {
                    lemma_files_map_value(self.files@, i as int);
                    lemma_files_map_contains(self.files@, file_ref@);
                    assert(find_file_entry(self.files@, file_ref@, i as int) == Some(i as int));
                }
                return Some(&self.files[i].1);
            }
            proof {
                assert(find_file_entry(self.files@, file_ref@, i as int) == find_file_entry(
                    self.files@,
                    file_ref@,
                    i as int + 1,
                ));
            }
            i += 1;
        }
        proof {
            assert(find_file_entry(self.files@, file_ref@, self.files@.len() as int) is None);
        }
        None
    }

    /// Replace a file's entry and update the lookup tables with the diff
    /// between the old and the new contents.  The new table contents are
    /// pinned exactly: what the diff removed is stripped, what it added
    /// is recorded under this file's reference.
    pub fn update_file(&mut self, file_name: String, index_file: IndexFile)
        requires
            old(self).wf(),
            index_file.wf(),
        ensures
            final(self).wf(),
            final(self).spec_files() == old(self).spec_files().insert(
                file_name@,
                index_file.view_file(),
            ),
            final(self).spec_tables() == table_update(
                old(self).spec_tables(),
                if old(self).spec_files().contains_key(file_name@) {
                    old(self).spec_files()[file_name@].symbols
                } else {
                    Seq::empty()
                },
                syms_view(index_file.symbols@),
                file_name@,
            ),
    {
        let file_ref = IndexFileRef::from_string(file_name);
        let ghost new_file_view = index_file.view_file();
        let ghost old_files = self.files@;

        // Find any previous entry for this file.
        let mut old_at: Option<usize> = None;
        let mut i: usize = 0;
        while i < self.files.len()
            invariant
                i <= self.files@.len(),
                self.wf(),
                self.files@ == old_files,
                match old_at {
                    Some(a) => a < i && a < self.files@.len() && self.files@[a as int].0@
                        == file_ref@,
                    None => forall|j: int|
                        0 <= j < i ==> (#[trigger] self.files@[j].0@) != file_ref@,
                },
            decreases self.files@.len() - i,
        {
            if old_at.is_none() && &self.files[i].0 == &file_ref {
                old_at = Some(i);
            }
            i += 1;
        }

        let ghost old_syms_spec: Seq<SymView> = if old(self).spec_files().contains_key(file_ref@) {
            old(self).spec_files()[file_ref@].symbols
        } else {
            Seq::empty()
        };

        // Diff the old entry against the new one.
        let empty_symbols: Vec<IndexSymbol> = Vec::new();
        let diff = match old_at {
            Some(a) => {
                proof {
                    lemma_files_map_value(self.files@, a as int);
                    lemma_files_map_contains(self.files@, file_ref@);
                }
                diff_symbols(&self.files[a].1.symbols, &index_file.symbols)
            },
            None => {
                proof {
                    lemma_files_map_contains(self.files@, file_ref@);
                    lemma_syms_view_len(empty_symbols@);
                    assert(syms_view(empty_symbols@) =~= Seq::<SymView>::empty());
                }
                diff_symbols(&empty_symbols, &index_file.symbols)
            },
        };
        let ghost newv = syms_view(index_file.symbols@);
        proof {
            assert(syms_view(diff.removed_symbols@) == removed_symbols(old_syms_spec, newv));
            assert(syms_view(diff.added_symbols@) == added_symbols(old_syms_spec, newv));
        }

        // Replace the file entry.
        match old_at {
            Some(a) => {
                proof {
                    lemma_files_map_remove(self.files@, a as int);
                }
                self.files.remove(a);
                proof {
                    assert(self.files@ =~= old_files.subrange(0, a as int) + old_files.subrange(
                        a as int + 1,
                        old_files.len() as int,
                    ));
                }
            },
            None => {
                proof {
                    assert(files_map(self.files@) =~= files_map(self.files@).remove(file_ref@));
                }
            },
        }
        let ghost mid_files = self.files@;
        let file_ref_kept = file_ref.clone();
        self.files.push((file_ref, index_file));
        proof {
            assert(self.files@.drop_last() =~= mid_files);
            lemma_files_map_contains(mid_files, self.files@.last().0@);
            assert(!files_map(mid_files).contains_key(self.files@.last().0@));
            assert(unique_file_keys(self.files@));
            assert(forall|j: int|
                0 <= j < self.files@.len() ==> (#[trigger] self.files@[j].1).wf());
            assert(files_map(self.files@) =~= files_map(old_files).insert(
                file_ref_kept@,
                new_file_view,
            ));
        }

        // Apply the diff to the tables.
        apply_removed(&mut self.lookup_tables, &diff.removed_symbols);
        apply_added(&mut self.lookup_tables, &diff.added_symbols, &file_ref_kept);
    }

    /// Whether a class with this name is known.
    pub fn is_known_class(&self, name: &SymbolName) -> (r: bool)
        requires
            self.wf(),
        ensures
            r == self.spec_tables().classes.contains_key(name@),
    {
        self.lookup_tables.class_ref(name).is_some()
    }

    /// Whether a method of any kind with this name is known.
    pub fn is_known_method(&self, name: &SymbolName) -> (r: bool)
        requires
            self.wf(),
        ensures
            r == (self.spec_tables().procedures.contains_key(name@)
                || self.spec_tables().functions.contains_key(name@)
                || self.spec_tables().setters.contains_key(name@)),
    {
        self.lookup_tables.method_ref(MethodKind::Procedure, name).is_some()
            || self.lookup_tables.method_ref(MethodKind::Function, name).is_some()
            || self.lookup_tables.method_ref(MethodKind::Setter, name).is_some()
    }

    /// The names of all known classes.
    pub fn all_known_classes(&self) -> (r: Vec<SymbolName>)
        requires
            self.wf(),
        ensures
            forall|i: int|
                0 <= i < r@.len() ==> self.spec_tables().classes.contains_key(#[trigger] r@[i]@),
            forall|k: Seq<char>|
                self.spec_tables().classes.contains_key(k) ==> exists|i: int|
                    0 <= i < r@.len() && (#[trigger] r@[i]@) == k,
    {
        self.lookup_tables.class_names()
    }

    /// The names of all known methods of one kind.
    pub fn all_known_methods(&self, kind: MethodKind) -> (r: Vec<SymbolName>)
        requires
            self.wf(),
        ensures
            forall|i: int|
                0 <= i < r@.len() ==> self.spec_tables().methods(kind).contains_key(
                    #[trigger] r@[i]@,
                ),
            forall|k: Seq<char>|
                self.spec_tables().methods(kind).contains_key(k) ==> exists|i: int|
                    0 <= i < r@.len() && (#[trigger] r@[i]@) == k,
    {
        self.lookup_tables.method_names(kind)
    }

    /// The names of all known properties.
    pub fn all_known_properties(&self) -> (r: Vec<SymbolName>)
        requires
            self.wf(),
        ensures
            forall|i: int|
                0 <= i < r@.len() ==> self.spec_tables().properties.contains_key(
                    #[trigger] r@[i]@,
                ),
            forall|k: Seq<char>|
                self.spec_tables().properties.contains_key(k) ==> exists|i: int|
                    0 <= i < r@.len() && (#[trigger] r@[i]@) == k,
    {
        self.lookup_tables.property_names()
    }

    /// Resolve the class recorded under a name: look the name up in the
    /// class table, then re-resolve the reference in the files map to
    /// the first class symbol there that carries the name.
    pub fn find_class(&self, name: &SymbolName) -> (r: Option<IndexSymbolSnapshot<&ClassSymbol>>)
        requires
            self.wf(),
        ensures
            ({
                if !self.spec_tables().classes.contains_key(name@) {
                    r is None
                } else {
                    let rv = self.spec_tables().classes[name@];
                    if rv.path.len() == 0 || !self.spec_files().contains_key(rv.file) {
                        r is None
                    } else {
                        match find_named_projected::<ClassSymbol>(
                            self.spec_stored_symbols(rv.file),
                            rv.path.last(),
                            0,
                        ) {
                            Some(j) => r matches Some(s) && s.path@ == self.spec_files()[
                            rv.file].path && Some(s.symbol) == ClassSymbol::spec_of_symbol(
                                &self.spec_stored_symbols(rv.file)[j],
                            ),
                            None => r is None,
                        }
                    }
                }
            }),
    {
        let symbol_ref = match self.lookup_tables.class_ref(name) {
            Some(s) => s,
            None => {
                return None;
            },
        };
        self.find_symbol_ref(symbol_ref)
    }

    /// Re-resolve a symbol reference to a live symbol of type `T`: the
    /// first top-level symbol of the referenced file that carries the
    /// reference's unqualified name and projects to `T`.
    pub fn find_symbol_ref<T: IndexSymbolType>(&self, symbol_ref: &IndexSymbolRef) -> (r: Option<
        IndexSymbolSnapshot<&T>,
    >)
        requires
            self.wf(),
        ensures
            ({
                let fr = symbol_ref.file_ref@;
                if symbol_ref.symbol_path@.len() == 0 || !self.spec_files().contains_key(fr) {
                    r is None
                } else {
                    match find_named_projected::<T>(
                        self.spec_stored_symbols(fr),
                        symbol_ref.symbol_path@.last(),
                        0,
                    ) {
                        Some(j) => r matches Some(s) && s.path@ == self.spec_files()[fr].path
                            && Some(s.symbol) == T::spec_of_symbol(
                            &self.spec_stored_symbols(fr)[j],
                        ),
                        None => r is None,
                    }
                }
            }),
    {
        if symbol_ref.symbol_path.len() == 0 {
            return None;
        }
        let file = match self.file(&symbol_ref.file_ref) {
            Some(f) => f,
            None => {
                return None;
            },
        };
        let ghost syms = file.symbols@;
        let ghost wanted = symbol_ref.symbol_path@.last();
        let name = symbol_ref.symbol_path.name();
        let mut i: usize = 0;
        while i < file.symbols.len()
            invariant
                self.wf(),
                file.wf(),
                syms == file.symbols@,
                file.view_file() == self.spec_files()[symbol_ref.file_ref@],
                syms == self.spec_stored_symbols(symbol_ref.file_ref@),
                symbol_ref.symbol_path@.len() > 0,
                self.spec_files().contains_key(symbol_ref.file_ref@),
                name@ == wanted,
                wanted == symbol_ref.symbol_path@.last(),
                i <= file.symbols@.len(),
                find_named_projected::<T>(syms, wanted, 0) == find_named_projected::<T>(
                    syms,
                    wanted,
                    i as int,
                ),
            decreases file.symbols@.len() - i,
        {
            let sym = &file.symbols[i];
            if sym.name() == name {
                match T::from_index_symbol(sym) {
                    Some(t) => {
                        proof {
                            assert(find_named_projected::<T>(syms, wanted, i as int) == Some(
                                i as int,
                            ));
                            assert(Some(t) == T::spec_of_symbol(&syms[i as int]));
                            assert(syms[i as int] == self.spec_stored_symbols(
                                symbol_ref.file_ref@,
                            )[i as int]);
                            assert(Some(t) == T::spec_of_symbol(
                                &self.spec_stored_symbols(symbol_ref.file_ref@)[i as int],
                            ));
                            assert(self.spec_files()[symbol_ref.file_ref@].path == file.path@);
                        }
                        return Some(IndexSymbolSnapshot { path: file.path.clone(), symbol: t });
                    },
                    None => {},
                }
            }
            proof {
                assert(find_named_projected::<T>(syms, wanted, i as int)
                    == find_named_projected::<T>(syms, wanted, i as int + 1));
            }
            i += 1;
        }
        proof {
            assert(find_named_projected::<T>(syms, wanted, syms.len() as int) is None);
        }
        None
    }

    /// How a symbol reference re-resolves: nothing for an unknown file or
    /// an empty or over-long path; otherwise the descent by name, the
    /// first component to a top-level symbol, the second to a member of a
    /// class.
    pub open spec fn snapshot_resolution(
        &self,
        rv: crate::index::RefView,
        r: Option<IndexSymbolSnapshot<&IndexSymbol>>,
    ) -> bool {
        let fr = rv.file;
        let path = rv.path;
        if !self.spec_files().contains_key(fr) || path.len() == 0 || path.len() > 2 {
            r is None
        } else {
            let syms = self.spec_stored_symbols(fr);
            match find_top_named(syms, path[0], 0) {
                None => r is None,
                Some(j) => if path.len() == 1 {
                    r matches Some(s) && s.path@ == self.spec_files()[fr].path && *s.symbol
                        == syms[j]
                } else if syms[j] is Class {
                    match find_top_named(syms[j]->Class_0.members@, path[1], 0) {
                        Some(k) => r matches Some(s) && s.path@ == self.spec_files()[fr].path
                            && *s.symbol == syms[j]->Class_0.members@[k],
                        None => r is None,
                    }
                } else {
                    r is None
                },
            }
        }
    }

    /// Re-resolve a symbol reference by path descent: the first component
    /// names a top-level symbol, the second a member inside it.
    pub fn symbol_snapshot(&self, symbol_ref: &IndexSymbolRef) -> (r: Option<
        IndexSymbolSnapshot<&IndexSymbol>,
    >)
        requires
            self.wf(),
        ensures
            self.snapshot_resolution(symbol_ref@, r),
    {
        let ghost fr = symbol_ref.file_ref@;
        let ghost path = symbol_ref.symbol_path@;
        let file = match self.file(&symbol_ref.file_ref) {
            Some(f) => f,
            None => {
                return None;
            },
        };
        let depth = symbol_ref.symbol_path.len();
        if depth == 0 {
            return None;
        }
        let ghost file_snapshot = *file;
        let ghost syms = file.symbols@;
        let mut i: usize = 0;
        while i < file.symbols.len()
            invariant
                self.wf(),
                file.wf(),
                file == file_snapshot,
                syms == file.symbols@,
                syms == self.spec_stored_symbols(fr),
                self.spec_files().contains_key(fr),
                file.view_file() == self.spec_files()[fr],
                fr == symbol_ref.file_ref@,
                path == symbol_ref.symbol_path@,
                i <= file.symbols@.len(),
                depth == symbol_ref.symbol_path@.len(),
                depth >= 1,
                find_top_named(syms, path[0], 0) == find_top_named(syms, path[0], i as int),
            decreases file.symbols@.len() - i,
        {
            let sym = &file.symbols[i];
            let top_name = match sym {
                IndexSymbol::Class(c) => &c.name,
                IndexSymbol::Method(m) => m.symbol_path.name(),
                IndexSymbol::Property(p) => p.symbol_path.name(),
            };
            proof {
                assert(top_name@ == sym_view(syms[i as int]).name());
            }
            if top_name == symbol_ref.symbol_path.component(0) {
                proof {
                    assert(find_top_named(syms, path[0], i as int) == Some(i as int));
                }
                if depth == 1 {
                    return Some(IndexSymbolSnapshot { path: file.path.clone(), symbol: sym });
                }
                if depth == 2 {
                    match sym {
                        IndexSymbol::Class(c) => {
                            let ghost members = c.members@;
                            let wanted = symbol_ref.symbol_path.component(1);
                            let mut k: usize = 0;
                            while k < c.members.len()
                                invariant
                                    self.wf(),
                                    file == file_snapshot,
                                    file.wf(),
                                    syms == file.symbols@,
                                    syms == self.spec_stored_symbols(fr),
                                    self.spec_files().contains_key(fr),
                                    file.view_file() == self.spec_files()[fr],
                                    fr == symbol_ref.file_ref@,
                                    path == symbol_ref.symbol_path@,
                                    path.len() == 2,
                                    wanted@ == path[1],
                                    find_top_named(syms, path[0], 0) == Some(i as int),
                                    i < file.symbols@.len(),
                                    sym_view(file.symbols@[i as int]).wf(),
                                    *sym == file.symbols@[i as int],
                                    *sym == IndexSymbol::Class(*c),
                                    members == c.members@,
                                    k <= c.members@.len(),
                                    find_top_named(members, path[1], 0) == find_top_named(
                                        members,
                                        path[1],
                                        k as int,
                                    ),
                                decreases c.members@.len() - k,
                            {
                                proof {
                                    lemma_syms_view_len(c.members@);
                                    lemma_syms_view_index(c.members@, k as int);
                                    assert(sym_view(file.symbols@[i as int])->Class_0.members
                                        == syms_view(c.members@));
                                    assert((sym_view(file.symbols@[i as int])->Class_0.members)[
                                    k as int].member_wf(
                                        sym_view(file.symbols@[i as int])->Class_0.name,
                                    ));
                                }
                                let member = &c.members[k];
                                let member_name = match member {
                                    IndexSymbol::Class(mc) => &mc.name,
                                    IndexSymbol::Method(mm) => mm.symbol_path.name(),
                                    IndexSymbol::Property(mp) => mp.symbol_path.name(),
                                };
                                proof {
                                    assert(member_name@ == sym_view(members[k as int]).name());
                                }
                                if member_name == wanted {
                                    proof {
                                        assert(find_top_named(members, path[1], k as int) == Some(
                                            k as int,
                                        ));
                                        assert(syms[i as int]->Class_0.members@ == members);
                                    }
                                    return Some(
                                        IndexSymbolSnapshot {
                                            path: file.path.clone(),
                                            symbol: member,
                                        },
                                    );
                                }
                                proof {
                                    assert(find_top_named(members, path[1], k as int)
                                        == find_top_named(members, path[1], k as int + 1));
                                }
                                k += 1;
                            }
                            proof {
                                assert(find_top_named(members, path[1], members.len() as int)
                                    is None);
                            }
                        },
                        _ => {},
                    }
                    return None;
                }
                return None;
            }
            proof {
                assert(find_top_named(syms, path[0], i as int) == find_top_named(
                    syms,
                    path[0],
                    i as int + 1,
                ));
            }
            i += 1;
        }
        proof {
            assert(find_top_named(syms, path[0], syms.len() as int) is None);
        }
        None
    }
}

/// Strip every removed symbol from the tables, in order.
fn apply_removed(tables: &mut LookupTables, removed: &Vec<IndexSymbol>)
    requires
        old(tables).wf(),
        forall|i: int| 0 <= i < removed@.len() ==> (#[trigger] sym_view(removed@[i])).wf(),
    ensures
        final(tables).wf(),
        final(tables)@ == strip_all(old(tables)@, syms_view(removed@)),
{
    let ghost rv = syms_view(removed@);
    proof {
        lemma_syms_view_len(removed@);
        assert(rv.take(0) =~= Seq::<SymView>::empty());
    }
    let mut i: usize = 0;
    while i < removed.len()
        invariant
            i <= removed@.len(),
            rv == syms_view(removed@),
            rv.len() == removed@.len(),
            forall|k: int| 0 <= k < removed@.len() ==> (#[trigger] sym_view(removed@[k])).wf(),
            tables.wf(),
            tables@ == strip_all(old(tables)@, rv.take(i as int)),
        decreases removed@.len() - i,
    {
        proof {
            lemma_syms_view_index(removed@, i as int);
            assert(rv.take(i as int + 1).drop_last() =~= rv.take(i as int));
            assert(rv.take(i as int + 1).last() == rv[i as int]);
        }
        match &removed[i] {
            IndexSymbol::Class(c) => {
                let ghost mv = syms_view(c.members@);
                let ghost t_at_class = tables@;
                proof {
                    lemma_syms_view_len(c.members@);
                    assert(rv[i as int]->Class_0.members == mv);
                    assert(mv.take(0) =~= Seq::<SymView>::empty());
                }
                let mut k: usize = 0;
                while k < c.members.len()
                    invariant
                        k <= c.members@.len(),
                        mv == syms_view(c.members@),
                        mv.len() == c.members@.len(),
                        i < removed@.len(),
                        rv == syms_view(removed@),
                        rv[i as int]->Class_0.members == mv,
                        rv[i as int] is Class,
                        rv[i as int].wf(),
                        tables.wf(),
                        tables@ == strip_members(t_at_class, mv.take(k as int)),
                    decreases c.members@.len() - k,
                {
                    proof {
                        lemma_syms_view_index(c.members@, k as int);
                        assert(mv.take(k as int + 1).drop_last() =~= mv.take(k as int));
                        assert(mv.take(k as int + 1).last() == mv[k as int]);
                        assert(mv[k as int].member_wf(rv[i as int]->Class_0.name));
                    }
                    match &c.members[k] {
                        IndexSymbol::Method(m) => {
                            tables.remove_method_path(m.kind, m.symbol_path.name(), &m.symbol_path);
                        },
                        IndexSymbol::Property(p) => {
                            tables.remove_property_path(p.symbol_path.name(), &p.symbol_path);
                        },
                        IndexSymbol::Class(_) => {},
                    }
                    k += 1;
                }
                proof {
                    assert(mv.take(mv.len() as int) =~= mv);
                }
                tables.remove_class(&c.name);
            },
            IndexSymbol::Method(m) => {
                tables.remove_method_path(m.kind, m.symbol_path.name(), &m.symbol_path);
            },
            IndexSymbol::Property(p) => {
                tables.remove_property_path(p.symbol_path.name(), &p.symbol_path);
            },
        }
        i += 1;
    }
    proof {
        assert(rv.take(rv.len() as int) =~= rv);
    }
}

/// Record every added symbol in the tables, in order, under `file_ref`.
fn apply_added(tables: &mut LookupTables, added: &Vec<IndexSymbol>, file_ref: &IndexFileRef)
    requires
        old(tables).wf(),
        forall|i: int| 0 <= i < added@.len() ==> (#[trigger] sym_view(added@[i])).wf(),
    ensures
        final(tables).wf(),
        final(tables)@ == add_all(old(tables)@, syms_view(added@), file_ref@),
{
    let ghost av = syms_view(added@);
    proof {
        lemma_syms_view_len(added@);
        assert(av.take(0) =~= Seq::<SymView>::empty());
    }
    let mut i: usize = 0;
    while i < added.len()
        invariant
            i <= added@.len(),
            av == syms_view(added@),
            av.len() == added@.len(),
            forall|k: int| 0 <= k < added@.len() ==> (#[trigger] sym_view(added@[k])).wf(),
            tables.wf(),
            tables@ == add_all(old(tables)@, av.take(i as int), file_ref@),
        decreases added@.len() - i,
    {
        proof {
            lemma_syms_view_index(added@, i as int);
            assert(av.take(i as int + 1).drop_last() =~= av.take(i as int));
            assert(av.take(i as int + 1).last() == av[i as int]);
        }
        match &added[i] {
            IndexSymbol::Class(c) => {
                let ghost mv = syms_view(c.members@);
                proof {
                    lemma_syms_view_len(c.members@);
                    assert(av[i as int]->Class_0.members == mv);
                }
                let mut path_names: Vec<SymbolName> = Vec::new();
                path_names.push(c.name.clone());
                let class_path = SymbolPath::new(path_names);
                proof {
                    assert(class_path@ =~= seq![c.name@]);
                }
                tables.insert_class(&c.name, IndexSymbolRef::new(file_ref.clone(), class_path));
                let ghost t_after_class = tables@;
                proof {
                    assert(mv.take(0) =~= Seq::<SymView>::empty());
                }
                let mut k: usize = 0;
                while k < c.members.len()
                    invariant
                        k <= c.members@.len(),
                        mv == syms_view(c.members@),
                        mv.len() == c.members@.len(),
                        i < added@.len(),
                        av == syms_view(added@),
                        av[i as int]->Class_0.members == mv,
                        av[i as int] is Class,
                        av[i as int].wf(),
                        tables.wf(),
                        tables@ == add_members(t_after_class, mv.take(k as int), file_ref@),
                    decreases c.members@.len() - k,
                {
                    proof {
                        lemma_syms_view_index(c.members@, k as int);
                        assert(mv.take(k as int + 1).drop_last() =~= mv.take(k as int));
                        assert(mv.take(k as int + 1).last() == mv[k as int]);
                        assert(mv[k as int].member_wf(av[i as int]->Class_0.name));
                    }
                    match &c.members[k] {
                        IndexSymbol::Method(m) => {
                            tables.insert_method(
                                m.kind,
                                m.symbol_path.name(),
                                IndexSymbolRef::new(file_ref.clone(), m.symbol_path.clone()),
                            );
                        },
                        IndexSymbol::Property(p) => {
                            tables.insert_property(
                                p.symbol_path.name(),
                                IndexSymbolRef::new(file_ref.clone(), p.symbol_path.clone()),
                            );
                        },
                        IndexSymbol::Class(_) => {},
                    }
                    k += 1;
                }
                proof {
                    assert(mv.take(mv.len() as int) =~= mv);
                }
            },
            IndexSymbol::Method(m) => {
                tables.insert_method(
                    m.kind,
                    m.symbol_path.name(),
                    IndexSymbolRef::new(file_ref.clone(), m.symbol_path.clone()),
                );
            },
            IndexSymbol::Property(p) => {
                tables.insert_property(
                    p.symbol_path.name(),
                    IndexSymbolRef::new(file_ref.clone(), p.symbol_path.clone()),
                );
            },
        }
        i += 1;
    }
    proof {
        assert(av.take(av.len() as int) =~= av);
    }
}

} // verus!
