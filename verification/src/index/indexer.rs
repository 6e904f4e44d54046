//! Per-file symbol extraction: parse a source file and turn class,
//! method and property definitions into the file's symbol tree, then
//! commit it to the index.  Directory walking, scheduling and file
//! reading are collaborators outside the library; they feed file
//! contents into `index_file_content`.

use vstd::prelude::*;

use crate::dataflex_parser::DataFlexTreeParser;
use crate::text::decoded_of;
use crate::index::index_file::{IndexFile, IndexFileRef};
use crate::index::index_symbol::{
    lemma_syms_view_index, lemma_syms_view_len, lemma_syms_view_push, sym_view, syms_view,
    ClassSymbol, ClassView, IndexSymbol, MethodKind, MethodSymbol, MethodView, PropView,
    PropertySymbol, SymView, SymbolName, SymbolPath,
};
use crate::index::index_file::FileView;
use crate::point::Point;
use crate::index::{table_update, Index};
use crate::syntax_tree::{FieldName, NodeKind, SyntaxNode, SyntaxTree};
use vstd::string::StringSliceAdditionalSpecFns;
use crate::tree_cursor::DataFlexTreeCursor;

verus! {

/// The final component of a path.
pub uninterp spec fn base_name_of(s: Seq<char>) -> Seq<char>;

/// Relies on std::path::Path::file_name: the final component of a path,
/// or the empty string where the path has none.
#[verifier::external_body]
fn base_name(path: &str) -> (r: String)
    ensures
        r@ == base_name_of(path@),
{
    match std::path::Path::new(path).file_name() {
        Some(n) => n.to_string_lossy().into_owned(),
        None => String::new(),
    }
}

/// The lifecycle of the indexer.
#[derive(Debug, PartialEq, Eq, Structural)]
pub enum IndexerState {
    Initializing,
    InitialIndexing,
    Inactive,
}

/// A party notified when the indexer changes state.
pub trait IndexerObserver {
    fn state_transition(&self, old_state: IndexerState, new_state: IndexerState);
}

/// Discovery of the per-version system library paths.
#[derive(Debug)]
pub struct IndexerConfig {
    versioned_system_paths: Vec<(String, Vec<String>)>,
    default_version: String,
}

/// The first entry carrying a version name.
pub open spec fn find_version(es: Seq<(String, Vec<String>)>, v: Seq<char>, j: int) -> Option<int>
    decreases es.len() - j,
{
    if j < 0 || j >= es.len() {
        None
    } else if es[j].0@ == v {
        Some(j)
    } else {
        find_version(es, v, j + 1)
    }
}

/// What the lookup of a version yields over a path table.
pub open spec fn version_paths(es: Seq<(String, Vec<String>)>, v: Seq<char>) -> Option<
    Seq<String>,
> {
    match find_version(es, v, 0) {
        Some(j) => Some(es[j].1@),
        None => None,
    }
}

impl IndexerConfig {
    /// The recorded per-version path table.
    pub closed spec fn spec_versioned_paths(&self) -> Seq<(String, Vec<String>)> {
        self.versioned_system_paths@
    }

    /// The fallback version.
    pub closed spec fn spec_default_version(&self) -> Seq<char> {
        self.default_version@
    }

    /// A configuration built from plain values: the per-version path
    /// table and the fallback version.  The platform side that reads the
    /// table (a registry of installed versions, where one exists) hands
    /// its findings in here.
    pub fn from_paths(versioned_system_paths: Vec<(String, Vec<String>)>, default_version: String)
        -> (r: IndexerConfig)
        ensures
            r.spec_versioned_paths() == versioned_system_paths@,
            r.spec_default_version() == default_version@,
    {
        IndexerConfig { versioned_system_paths, default_version }
    }

    /// The system paths recorded per language version.  On platforms
    /// without a registry of installed versions there are none.
    pub fn versioned_system_paths() -> (r: Option<Vec<(String, Vec<String>)>>)
        ensures
            r is None,
    {
        None
    }

    /// Build the configuration from whatever the platform offers.
    pub fn new() -> (r: IndexerConfig)
        ensures
            r.spec_versioned_paths() =~= Seq::<(String, Vec<String>)>::empty(),
            r.spec_default_version() =~= Seq::<char>::empty(),
    {
        match Self::versioned_system_paths() {
            Some(paths) => {
                let default_version = if paths.len() > 0 {
                    paths[0].0.clone()
                } else {
                    String::new()
                };
                IndexerConfig { versioned_system_paths: paths, default_version }
            },
            None => IndexerConfig {
                versioned_system_paths: Vec::new(),
                default_version: String::new(),
            },
        }
    }

    /// The system paths for a version: the entry for the wanted version
    /// when recorded, else the entry for the default version, else none.
    pub fn system_path(&self, dataflex_version: Option<&String>) -> (r: Option<&Vec<String>>)
        ensures
            ({
                let wanted = match dataflex_version {
                    Some(v) => v@,
                    None => self.spec_default_version(),
                };
                let es = self.spec_versioned_paths();
                match version_paths(es, wanted) {
                    Some(ps) => r matches Some(p) && p@ == ps,
                    None => match version_paths(es, self.spec_default_version()) {
                        Some(ps) => r matches Some(p) && p@ == ps,
                        None => r is None,
                    },
                }
            }),
    {
        let wanted = match dataflex_version {
            Some(v) => v,
            None => &self.default_version,
        };
        match self.find_paths(wanted) {
            Some(p) => Some(p),
            None => self.find_paths(&self.default_version),
        }
    }

    fn find_paths(&self, version: &String) -> (r: Option<&Vec<String>>)
        ensures
            match version_paths(self.spec_versioned_paths(), version@) {
                Some(ps) => r matches Some(p) && p@ == ps,
                None => r is None,
            },
    {
        let ghost es = self.spec_versioned_paths();
        let mut i: usize = 0;
        while i < self.versioned_system_paths.len()
            invariant
                i <= es.len(),
                es == self.spec_versioned_paths(),
                find_version(es, version@, 0) == find_version(es, version@, i as int),
            decreases self.versioned_system_paths@.len() - i,
        {
            if self.versioned_system_paths[i].0 == *version {
                proof {
                    assert(find_version(es, version@, i as int) == Some(i as int));
                }
                return Some(&self.versioned_system_paths[i].1);
            }
            proof {
                assert(find_version(es, version@, i as int) == find_version(
                    es,
                    version@,
                    i as int + 1,
                ));
            }
            i += 1;
        }
        proof {
            assert(find_version(es, version@, es.len() as int) is None);
        }
        None
    }
}

/// The path ends in a dot followed by `ext`, and the dot is not the
/// first byte of the file name (a dotfile has no extension).
pub open spec fn has_extension(path: Seq<u8>, ext: Seq<u8>) -> bool {
    &&& path.len() >= ext.len() + 2
    &&& path.subrange(path.len() - ext.len(), path.len() as int) == ext
    &&& path[path.len() - ext.len() - 1] == 46
    &&& path[path.len() - ext.len() - 2] != 47
}

/// The file extensions the indexer recognises.
pub open spec fn spec_should_index(path: Seq<u8>) -> bool {
    ||| has_extension(path, "pkg".spec_bytes())
    ||| has_extension(path, "vw".spec_bytes())
    ||| has_extension(path, "wo".spec_bytes())
    ||| has_extension(path, "sl".spec_bytes())
    ||| has_extension(path, "dd".spec_bytes())
}

fn has_dot_extension(path: &[u8], ext: &[u8]) -> (r: bool)
    ensures
        r == has_extension(path@, ext@),
{
    if path.len() <= ext.len() {
        return false;
    }
    let base = path.len() - ext.len();
    if base < 2 {
        return false;
    }
    if path[base - 1] != 46 {
        proof {
            assert(path@[path@.len() - ext@.len() - 1] != 46);
        }
        return false;
    }
    if path[base - 2] == 47 {
        proof {
            assert(path@[path@.len() - ext@.len() - 2] == 47);
        }
        return false;
    }
    let mut i: usize = 0;
    let mut j: usize = base;
    while j < path.len()
        invariant
            ext@.len() < path@.len(),
            base == path@.len() - ext@.len(),
            j == base + i,
            base <= j <= path@.len(),
            forall|t: int| 0 <= t < i ==> path@[base + t] == ext@[t],
        decreases path@.len() - j,
    {
        if path[j] != ext[i] {
            proof {
                assert(path@.subrange(path@.len() - ext@.len(), path@.len() as int)[i as int]
                    != ext@[i as int]);
            }
            return false;
        }
        i += 1;
        j += 1;
    }
    proof {
        assert(path@.subrange(path@.len() - ext@.len(), path@.len() as int) =~= ext@);
    }
    true
}

/// The first child of `i` at or after `j` filling `field`.
pub open spec fn find_child_by_field(
    nodes: Seq<SyntaxNode>,
    i: int,
    field: FieldName,
    j: int,
) -> Option<int>
    decreases nodes.len() - j,
{
    if j < 0 || j >= nodes.len() {
        None
    } else if nodes[j].parent == i && nodes[j].field == field {
        Some(j)
    } else {
        find_child_by_field(nodes, i, field, j + 1)
    }
}

/// The first child of `i` at or after `j` with the given kind.
pub open spec fn find_child_by_kind(
    nodes: Seq<SyntaxNode>,
    i: int,
    kind: NodeKind,
    j: int,
) -> Option<int>
    decreases nodes.len() - j,
{
    if j < 0 || j >= nodes.len() {
        None
    } else if nodes[j].parent == i && nodes[j].kind == kind {
        Some(j)
    } else {
        find_child_by_kind(nodes, i, kind, j + 1)
    }
}

/// The last fieldless identifier child of `i` strictly below `hi`: the
/// superclass slot of a header.
pub open spec fn last_superclass_child(nodes: Seq<SyntaxNode>, i: int, hi: int) -> Option<int>
    decreases hi,
{
    if hi <= 0 {
        None
    } else if hi - 1 > i && nodes[hi - 1].parent == i && nodes[hi - 1].kind == NodeKind::Identifier
        && nodes[hi - 1].field == FieldName::NoField {
        Some(hi - 1)
    } else {
        last_superclass_child(nodes, i, hi - 1)
    }
}

/// The class a definition node contributes: located at its header's name
/// identifier, named by it, with the header's superclass slot.
pub open spec fn spec_class_symbol(nodes: Seq<SyntaxNode>, def: int, header_kind: NodeKind)
    -> Option<SymView> {
    match find_child_by_kind(nodes, def, header_kind, def + 1) {
        None => None,
        Some(h) => match find_child_by_field(nodes, h, FieldName::Name, h + 1) {
            None => None,
            Some(nn) => Some(
                SymView::Class(
                    ClassView {
                        location: nodes[nn].start,
                        name: decoded_of(nodes[nn].text@),
                        superclass: match last_superclass_child(nodes, h, nodes.len() as int) {
                            Some(sc) => decoded_of(nodes[sc].text@),
                            None => Seq::empty(),
                        },
                        members: Seq::empty(),
                    },
                ),
            ),
        },
    }
}

/// The name node of a method definition: the name field of its header.
pub open spec fn spec_member_name(nodes: Seq<SyntaxNode>, def: int, header_kind: NodeKind)
    -> Option<int> {
    match find_child_by_kind(nodes, def, header_kind, def + 1) {
        None => None,
        Some(h) => find_child_by_field(nodes, h, FieldName::Name, h + 1),
    }
}

/// Attach a member to the most recently extracted class, if the last
/// symbol is one; the member carries the class-qualified path.
pub open spec fn attach_to_last(
    symbols: Seq<SymView>,
    location: Point,
    name: Seq<char>,
    kind: Option<MethodKind>,
) -> Seq<SymView> {
    if symbols.len() == 0 {
        symbols
    } else {
        match symbols.last() {
            SymView::Class(c) => {
                let member = match kind {
                    Some(k) => SymView::Method(
                        MethodView { location, path: seq![c.name, name], kind: k },
                    ),
                    None => SymView::Property(PropView { location, path: seq![c.name, name] }),
                };
                symbols.drop_last().push(
                    SymView::Class(ClassView { members: c.members.push(member), ..c }),
                )
            },
            _ => symbols,
        }
    }
}

/// The dependencies and symbols extracted from the nodes below `upto`:
/// `Use` names become dependencies, class definitions become classes,
/// and method and property definitions attach to the last class.
pub open spec fn spec_extract(nodes: Seq<SyntaxNode>, upto: int) -> (Seq<Seq<char>>, Seq<SymView>)
    decreases upto,
{
    if upto <= 1 {
        (Seq::empty(), Seq::empty())
    } else {
        let prior = spec_extract(nodes, upto - 1);
        let i = upto - 1;
        match nodes[i].kind {
            NodeKind::UseStatement => match find_child_by_field(nodes, i, FieldName::Name, i + 1) {
                Some(d) => (prior.0.push(decoded_of(nodes[d].text@)), prior.1),
                None => prior,
            },
            NodeKind::ClassDefinition => match spec_class_symbol(nodes, i, NodeKind::ClassHeader) {
                Some(c) => (prior.0, prior.1.push(c)),
                None => prior,
            },
            NodeKind::ProcedureDefinition => match spec_member_name(
                nodes,
                i,
                NodeKind::ProcedureHeader,
            ) {
                Some(nn) => (
                    prior.0,
                    attach_to_last(
                        prior.1,
                        nodes[nn].start,
                        decoded_of(nodes[nn].text@),
                        Some(MethodKind::Procedure),
                    ),
                ),
                None => prior,
            },
            NodeKind::FunctionDefinition => match spec_member_name(
                nodes,
                i,
                NodeKind::FunctionHeader,
            ) {
                Some(nn) => (
                    prior.0,
                    attach_to_last(
                        prior.1,
                        nodes[nn].start,
                        decoded_of(nodes[nn].text@),
                        Some(MethodKind::Function),
                    ),
                ),
                None => prior,
            },
            NodeKind::PropertyDefinition => match find_child_by_field(
                nodes,
                i,
                FieldName::Name,
                i + 1,
            ) {
                Some(nn) => (
                    prior.0,
                    attach_to_last(prior.1, nodes[nn].start, decoded_of(nodes[nn].text@), None),
                ),
                None => prior,
            },
            _ => prior,
        }
    }
}

/// The dependency names a whole tree contributes.
pub open spec fn extracted_dependencies(nodes: Seq<SyntaxNode>) -> Seq<Seq<char>> {
    spec_extract(nodes, nodes.len() as int).0
}

/// The symbols a whole tree contributes.
pub open spec fn extracted_symbols(nodes: Seq<SyntaxNode>) -> Seq<SymView> {
    spec_extract(nodes, nodes.len() as int).1
}

/// The symbol indexer.
#[derive(Debug)]
pub struct Indexer {}

impl Indexer {
    /// A file is indexable exactly when its extension is one of the
    /// recognised source extensions.
    pub fn should_index_file(path: &str) -> (r: bool)
        ensures
            r == spec_should_index(path.spec_bytes()),
    {
        let b = path.as_bytes();
        has_dot_extension(b, "pkg".as_bytes()) || has_dot_extension(b, "vw".as_bytes())
            || has_dot_extension(b, "wo".as_bytes()) || has_dot_extension(b, "sl".as_bytes())
            || has_dot_extension(b, "dd".as_bytes())
    }

    /// Parse file contents and commit the extracted symbols.
    pub fn index_file_content(content: &[u8], path: String, index: &mut Index)
        requires
            old(index).wf(),
        ensures
            final(index).wf(),
            final(index).spec_files().contains_key(base_name_of(path@)),
            final(index).spec_files()[base_name_of(path@)].path == path@,
    {
        let parser = DataFlexTreeParser::new();
        let tree = parser.parse(content);
        Self::index_parse_tree(&tree, path, index);
    }

    /// Parse string contents and commit the extracted symbols (the entry
    /// point used by tests).
    pub fn index_test_content(content: &str, path: String, index: &mut Index)
        requires
            old(index).wf(),
        ensures
            final(index).wf(),
            final(index).spec_files().contains_key(base_name_of(path@)),
            final(index).spec_files()[base_name_of(path@)].path == path@,
    {
        Self::index_file_content(content.as_bytes(), path, index);
    }

    /// Walk a parse tree and extract the file's dependencies, classes,
    /// and the methods and properties of the most recently seen class,
    /// then commit the result under the file's base name.
    pub fn index_parse_tree(tree: &SyntaxTree, path: String, index: &mut Index)
        requires
            tree.wf(),
            old(index).wf(),
        ensures
            final(index).wf(),
            final(index).spec_files() == old(index).spec_files().insert(
                base_name_of(path@),
                FileView {
                    path: path@,
                    deps: extracted_dependencies(tree.nodes@),
                    symbols: extracted_symbols(tree.nodes@),
                },
            ),
            final(index).spec_tables() == table_update(
                old(index).spec_tables(),
                if old(index).spec_files().contains_key(base_name_of(path@)) {
                    old(index).spec_files()[base_name_of(path@)].symbols
                } else {
                    Seq::empty()
                },
                extracted_symbols(tree.nodes@),
                base_name_of(path@),
            ),
    {
        let file_name = base_name(path.as_str());
        let ghost path_view = path@;
        let mut index_file = IndexFile::new(path);
        proof {
            lemma_syms_view_len(index_file.symbols@);
            assert(syms_view(index_file.symbols@) =~= spec_extract(tree.nodes@, 1).1);
            assert(crate::index::index_file::deps_view(index_file.dependencies@) =~= spec_extract(
                tree.nodes@,
                1,
            ).0);
        }

        let n = tree.node_count();
        let mut i: usize = 1;
        while i < n
            invariant
                tree.wf(),
                n == tree.nodes@.len(),
                1 <= i <= n,
                index_file.wf(),
                index_file.path@ == path_view,
                crate::index::index_file::deps_view(index_file.dependencies@) == spec_extract(
                    tree.nodes@,
                    i as int,
                ).0,
                syms_view(index_file.symbols@) == spec_extract(tree.nodes@, i as int).1,
            decreases n - i,
        {
            let kind = tree.nodes[i].kind;
            match kind {
                NodeKind::UseStatement => {
                    match node_child_by_field(tree, i, FieldName::Name) {
                        Some(dep) => {
                            let dep_name = crate::text::bytes_to_string(
                                tree.nodes[dep].text.as_slice(),
                            );
                            index_file.dependencies.push(IndexFileRef::from_string(dep_name));
                            proof {
                                assert(crate::index::index_file::deps_view(
                                    index_file.dependencies@,
                                ) =~= spec_extract(tree.nodes@, i as int + 1).0);
                            }
                        },
                        None => {},
                    }
                },
                NodeKind::ClassDefinition => {
                    match class_symbol_of(tree, i, NodeKind::ClassHeader) {
                        Some(class_symbol) => {
                            let ghost sym = IndexSymbol::Class(class_symbol);
                            let ghost prefix = index_file.symbols@;
                            proof {
                                assert(sym_view(sym).wf());
                            }
                            index_file.symbols.push(IndexSymbol::Class(class_symbol));
                            proof {
                                assert(forall|t: int|
                                    0 <= t < index_file.symbols@.len() ==> (#[trigger] sym_view(
                                        index_file.symbols@[t],
                                    )).wf());
                                lemma_syms_view_push(prefix, sym);
                            }
                        },
                        None => {},
                    }
                },
                NodeKind::ProcedureDefinition => {
                    attach_member(
                        tree,
                        i,
                        NodeKind::ProcedureHeader,
                        MemberShape::Method(MethodKind::Procedure),
                        &mut index_file,
                    );
                },
                NodeKind::FunctionDefinition => {
                    attach_member(
                        tree,
                        i,
                        NodeKind::FunctionHeader,
                        MemberShape::Method(MethodKind::Function),
                        &mut index_file,
                    );
                },
                NodeKind::PropertyDefinition => {
                    attach_property(tree, i, &mut index_file);
                },
                _ => {},
            }
            i += 1;
        }

        proof {
            assert(syms_view(index_file.symbols@) == extracted_symbols(tree.nodes@));
            assert(crate::index::index_file::deps_view(index_file.dependencies@)
                == extracted_dependencies(tree.nodes@));
        }
        let ghost committed = index_file.view_file();
        index.update_file(file_name, index_file);
        proof {
            assert(committed =~~= (FileView {
                path: path_view,
                deps: extracted_dependencies(tree.nodes@),
                symbols: extracted_symbols(tree.nodes@),
            }));
        }
    }
}

/// What kind of member a definition contributes.
enum MemberShape {
    Method(MethodKind),
}

/// The first child of `i` filling `field`, if any.
fn node_child_by_field(tree: &SyntaxTree, i: usize, field: FieldName) -> (r: Option<usize>)
    requires
        tree.wf(),
        i < tree.nodes@.len(),
    ensures
        match r {
            Some(c) => c < tree.nodes@.len() && find_child_by_field(
                tree.nodes@,
                i as int,
                field,
                i as int + 1,
            ) == Some(c as int),
            None => find_child_by_field(tree.nodes@, i as int, field, i as int + 1) is None,
        },
{
    let n = tree.nodes.len();
    let mut j: usize = i + 1;
    while j < n
        invariant
            tree.wf(),
            n == tree.nodes@.len(),
            i < j <= n,
            find_child_by_field(tree.nodes@, i as int, field, i as int + 1) == find_child_by_field(
                tree.nodes@,
                i as int,
                field,
                j as int,
            ),
        decreases n - j,
    {
        if tree.nodes[j].parent == i && tree.nodes[j].field == field {
            return Some(j);
        }
        j += 1;
    }
    None
}

/// The first child of `i` with the given kind, if any.
fn node_child_by_kind(tree: &SyntaxTree, i: usize, kind: NodeKind) -> (r: Option<usize>)
    requires
        tree.wf(),
        i < tree.nodes@.len(),
    ensures
        match r {
            Some(c) => c < tree.nodes@.len() && find_child_by_kind(
                tree.nodes@,
                i as int,
                kind,
                i as int + 1,
            ) == Some(c as int),
            None => find_child_by_kind(tree.nodes@, i as int, kind, i as int + 1) is None,
        },
{
    let n = tree.nodes.len();
    let mut j: usize = i + 1;
    while j < n
        invariant
            tree.wf(),
            n == tree.nodes@.len(),
            i < j <= n,
            find_child_by_kind(tree.nodes@, i as int, kind, i as int + 1) == find_child_by_kind(
                tree.nodes@,
                i as int,
                kind,
                j as int,
            ),
        decreases n - j,
    {
        if tree.nodes[j].parent == i && tree.nodes[j].kind == kind {
            return Some(j);
        }
        j += 1;
    }
    None
}

/// The last identifier child of a header that fills no field: the
/// superclass slot of an object or class header.
fn header_superclass(tree: &SyntaxTree, header: usize) -> (r: Option<usize>)
    requires
        tree.wf(),
        header < tree.nodes@.len(),
    ensures
        match r {
            Some(c) => c < tree.nodes@.len() && last_superclass_child(
                tree.nodes@,
                header as int,
                tree.nodes@.len() as int,
            ) == Some(c as int),
            None => last_superclass_child(
                tree.nodes@,
                header as int,
                tree.nodes@.len() as int,
            ) is None,
        },
{
    let n = tree.nodes.len();
    let mut found: Option<usize> = None;
    let mut j: usize = header + 1;
    proof {
        lemma_no_superclass_below(tree.nodes@, header as int, header as int + 1);
    }
    while j < n
        invariant
            tree.wf(),
            n == tree.nodes@.len(),
            header < j <= n,
            match found {
                Some(c) => c < tree.nodes@.len() && last_superclass_child(
                    tree.nodes@,
                    header as int,
                    j as int,
                ) == Some(c as int),
                None => last_superclass_child(tree.nodes@, header as int, j as int) is None,
            },
        decreases n - j,
    {
        if tree.nodes[j].parent == header && tree.nodes[j].kind == NodeKind::Identifier
            && tree.nodes[j].field == FieldName::NoField {
            found = Some(j);
        }
        j += 1;
    }
    found
}

/// No fieldless identifier child lives at or below its parent's index.
pub proof fn lemma_no_superclass_below(nodes: Seq<SyntaxNode>, i: int, hi: int)
    requires
        hi <= i + 1,
    ensures
        last_superclass_child(nodes, i, hi) is None,
    decreases hi,
{
    if hi > 0 {
        lemma_no_superclass_below(nodes, i, hi - 1);
    }
}

/// Build a class symbol from a class definition node: its name, its
/// location (the name's start), and its superclass name.
fn class_symbol_of(tree: &SyntaxTree, def: usize, header_kind: NodeKind) -> (r: Option<
    ClassSymbol,
>)
    requires
        tree.wf(),
        def < tree.nodes@.len(),
    ensures
        match r {
            Some(c) => sym_view(IndexSymbol::Class(c)).wf() && spec_class_symbol(
                tree.nodes@,
                def as int,
                header_kind,
            ) == Some(sym_view(IndexSymbol::Class(c))),
            None => spec_class_symbol(tree.nodes@, def as int, header_kind) is None,
        },
{
    let header = match node_child_by_kind(tree, def, header_kind) {
        Some(h) => h,
        None => {
            return None;
        },
    };
    let name_node = match node_child_by_field(tree, header, FieldName::Name) {
        Some(nn) => nn,
        None => {
            return None;
        },
    };
    let name = SymbolName::from_bytes(tree.nodes[name_node].text.as_slice());
    let superclass = match header_superclass(tree, header) {
        Some(sc) => SymbolName::from_bytes(tree.nodes[sc].text.as_slice()),
        None => SymbolName::from(""),
    };
    let c = ClassSymbol {
        location: tree.nodes[name_node].start,
        name,
        superclass,
        members: Vec::new(),
    };
    proof {
        lemma_syms_view_len(c.members@);
        assert(syms_view(c.members@) =~= Seq::empty());
        reveal_strlit("");
        assert(""@ =~= Seq::<char>::empty());
        assert(sym_view(IndexSymbol::Class(c)) =~~= spec_class_symbol(
            tree.nodes@,
            def as int,
            header_kind,
        )->Some_0);
    }
    Some(c)
}

/// Attach a method found at a definition node to the most recently
/// extracted class, if any.
fn attach_member(
    tree: &SyntaxTree,
    def: usize,
    header_kind: NodeKind,
    shape: MemberShape,
    index_file: &mut IndexFile,
)
    requires
        tree.wf(),
        def < tree.nodes@.len(),
        old(index_file).wf(),
    ensures
        final(index_file).wf(),
        final(index_file).path == old(index_file).path,
        final(index_file).dependencies == old(index_file).dependencies,
        syms_view(final(index_file).symbols@) == match spec_member_name(
            tree.nodes@,
            def as int,
            header_kind,
        ) {
            Some(nn) => attach_to_last(
                syms_view(old(index_file).symbols@),
                tree.nodes@[nn].start,
                decoded_of(tree.nodes@[nn].text@),
                Some(shape->Method_0),
            ),
            None => syms_view(old(index_file).symbols@),
        },
{
    let header = match node_child_by_kind(tree, def, header_kind) {
        Some(h) => h,
        None => {
            return ;
        },
    };
    let name_node = match node_child_by_field(tree, header, FieldName::Name) {
        Some(nn) => nn,
        None => {
            return ;
        },
    };
    let name = SymbolName::from_bytes(tree.nodes[name_node].text.as_slice());
    let location = tree.nodes[name_node].start;
    let member_kind = match shape {
        MemberShape::Method(k) => k,
    };
    push_member_to_last_class(index_file, location, name, Some(member_kind));
}

/// Attach a property found at a declaration node to the most recently
/// extracted class, if any.
fn attach_property(tree: &SyntaxTree, def: usize, index_file: &mut IndexFile)
    requires
        tree.wf(),
        def < tree.nodes@.len(),
        old(index_file).wf(),
    ensures
        final(index_file).wf(),
        final(index_file).path == old(index_file).path,
        final(index_file).dependencies == old(index_file).dependencies,
        syms_view(final(index_file).symbols@) == match find_child_by_field(
            tree.nodes@,
            def as int,
            FieldName::Name,
            def as int + 1,
        ) {
            Some(nn) => attach_to_last(
                syms_view(old(index_file).symbols@),
                tree.nodes@[nn].start,
                decoded_of(tree.nodes@[nn].text@),
                None,
            ),
            None => syms_view(old(index_file).symbols@),
        },
{
    let name_node = match node_child_by_field(tree, def, FieldName::Name) {
        Some(nn) => nn,
        None => {
            return ;
        },
    };
    let name = SymbolName::from_bytes(tree.nodes[name_node].text.as_slice());
    let location = tree.nodes[name_node].start;
    push_member_to_last_class(index_file, location, name, None);
}

/// Append a member (a method of some kind, or a property) to the last
/// class of the file, with the class-qualified two-component path.
fn push_member_to_last_class(
    index_file: &mut IndexFile,
    location: Point,
    name: SymbolName,
    kind: Option<MethodKind>,
)
    requires
        old(index_file).wf(),
    ensures
        final(index_file).wf(),
        final(index_file).path == old(index_file).path,
        final(index_file).dependencies == old(index_file).dependencies,
        syms_view(final(index_file).symbols@) == attach_to_last(
            syms_view(old(index_file).symbols@),
            location,
            name@,
            kind,
        ),
{
    let ghost osv = syms_view(old(index_file).symbols@);
    proof {
        lemma_syms_view_len(old(index_file).symbols@);
    }
    let last = match index_file.symbols.pop() {
        Some(s) => s,
        None => {
            proof {
                assert(osv.len() == 0);
            }
            return ;
        },
    };
    proof {
        lemma_syms_view_index(old(index_file).symbols@, old(index_file).symbols@.len() - 1);
        assert(osv.last() == sym_view(last));
    }
    let ghost popped_view = sym_view(last);
    match last {
        IndexSymbol::Class(mut class_symbol) => {
            let mut path_names: Vec<SymbolName> = Vec::new();
            path_names.push(class_symbol.name.clone());
            path_names.push(name);
            let symbol_path = SymbolPath::new(path_names);
            proof {
                assert(symbol_path@.len() == 2);
                assert(symbol_path@[0] == class_symbol.name@);
            }
            let member = match kind {
                Some(k) => IndexSymbol::Method(
                    MethodSymbol { location, symbol_path, kind: k },
                ),
                None => IndexSymbol::Property(PropertySymbol { location, symbol_path }),
            };
            let ghost member_view = sym_view(member);
            let ghost prev_members = class_symbol.members@;
            proof {
                assert(member_view.member_wf(class_symbol.name@));
                assert(popped_view.wf());
                assert(popped_view->Class_0.members == syms_view(prev_members));
            }
            let ghost member_ghost = member;
            class_symbol.members.push(member);
            proof {
                lemma_syms_view_push(prev_members, member_ghost);
            }
            let ghost rebuilt_view = sym_view(IndexSymbol::Class(class_symbol));
            proof {
                assert(rebuilt_view->Class_0.members == syms_view(prev_members).push(member_view));
                assert forall|t: int|
                    0 <= t < rebuilt_view->Class_0.members.len() implies (#[trigger]
                rebuilt_view->Class_0.members[t]).member_wf(rebuilt_view->Class_0.name) by {
                    if t < syms_view(prev_members).len() {
                        assert(popped_view->Class_0.members[t].member_wf(
                            popped_view->Class_0.name,
                        ));
                    }
                }
                assert(rebuilt_view.wf());
            }
            let ghost prefix = index_file.symbols@;
            index_file.symbols.push(IndexSymbol::Class(class_symbol));
            proof {
                assert(forall|t: int|
                    0 <= t < index_file.symbols@.len() ==> (#[trigger] sym_view(
                        index_file.symbols@[t],
                    )).wf());
                lemma_syms_view_push(prefix, IndexSymbol::Class(class_symbol));
                assert(syms_view(prefix) =~= osv.drop_last()) by {
                    lemma_syms_view_len(prefix);
                    lemma_syms_view_len(old(index_file).symbols@);
                    assert forall|t: int| 0 <= t < prefix.len() implies syms_view(prefix)[t]
                        == osv.drop_last()[t] by {
                        lemma_syms_view_index(prefix, t);
                        lemma_syms_view_index(old(index_file).symbols@, t);
                        assert(prefix[t] == old(index_file).symbols@[t]);
                    }
                }
                assert(member_view == (match kind {
                    Some(k) => SymView::Method(
                        MethodView {
                            location,
                            path: seq![popped_view->Class_0.name, name@],
                            kind: k,
                        },
                    ),
                    None => SymView::Property(
                        PropView { location, path: seq![popped_view->Class_0.name, name@] },
                    ),
                })) by {
                    assert(symbol_path@ =~= seq![popped_view->Class_0.name, name@]);
                }
                assert(rebuilt_view =~~= (match osv.last() {
                    SymView::Class(cv) => SymView::Class(
                        ClassView { members: cv.members.push(member_view), ..cv },
                    ),
                    _ => rebuilt_view,
                }));
                assert(syms_view(index_file.symbols@) =~= attach_to_last(
                    osv,
                    location,
                    name@,
                    kind,
                ));
            }
        },
        other => {
            index_file.symbols.push(other);
            proof {
                assert(index_file.symbols@ =~= old(index_file).symbols@);
                assert(!(osv.last() is Class));
                assert(syms_view(index_file.symbols@) == attach_to_last(osv, location, name@, kind));
            }
        },
    }
}

} // verus!
