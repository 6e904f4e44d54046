//! A document open in the editor: its line map, its syntax tree, and its
//! semantic token map, kept coherent across edits.

use vstd::prelude::*;

use crate::code_completion::{CodeCompletion, CompletionItem};
use crate::dataflex_parser::DataFlexTreeParser;
use crate::index::{Index, IndexSymbol, SymbolName};
use crate::line_map::{spec_splice, splice_applies, LineMap};
use crate::point::Point;
use crate::reference_resolver::ReferenceResolver;
use crate::syntax_map::{SemanticToken, SyntaxMap};
use crate::syntax_tree::{NodeKind, SyntaxNode, SyntaxTree};
use crate::tree_cursor::{spec_first_child_for_point, spec_leaf_for_point, DataFlexTreeCursor};

verus! {

/// The identifier leaf a position falls on: the leaf reached by
/// descending from the root, when the root has a child containing the
/// position and the descent ends on an identifier.
pub open spec fn spec_symbol_leaf(nodes: Seq<SyntaxNode>, position: Point) -> Option<int> {
    if spec_first_child_for_point(nodes, 0, position, 1) is None {
        None
    } else {
        let leaf = spec_leaf_for_point(nodes, 0, position);
        if nodes[leaf].kind == NodeKind::Identifier {
            Some(leaf)
        } else {
            None
        }
    }
}

/// One text change from the editor: an optional replaced range and the
/// new text.  A change without a range replaces the whole document.
pub struct ContentChange {
    pub range: Option<(Point, Point)>,
    pub text: Vec<u8>,
}

/// The reading of a change: its range and its text.
pub open spec fn change_view(c: ContentChange) -> (Option<(Point, Point)>, Seq<u8>) {
    (c.range, c.text@)
}

/// One change applied to a text: a range-less change replaces the whole
/// text, an addressable splice applies, and anything else is ignored.
pub open spec fn spec_apply_change(text: Seq<u8>, c: (Option<(Point, Point)>, Seq<u8>)) -> Seq<
    u8,
> {
    match c.0 {
        None => c.1,
        Some((start, end)) => if splice_applies(text, start, end, c.1.len() as int) {
            spec_splice(text, start, end, c.1)
        } else {
            text
        },
    }
}

/// The first `upto` changes applied in order.
pub open spec fn spec_apply_changes(
    text: Seq<u8>,
    cs: Seq<ContentChange>,
    upto: int,
) -> Seq<u8>
    decreases upto,
{
    if upto <= 0 {
        text
    } else {
        spec_apply_change(spec_apply_changes(text, cs, upto - 1), change_view(cs[upto - 1]))
    }
}

/// The location of a definition: the file that declares it and the
/// position of the declaration.
#[derive(Debug)]
pub struct DefinitionLocation {
    pub path: String,
    pub location: Point,
}

/// A document: line-indexed text, its parse, and its token map.
pub struct DataFlexDocument {
    pub line_map: LineMap,
    pub parser: DataFlexTreeParser,
    pub tree: Option<SyntaxTree>,
    pub syntax_map: Option<SyntaxMap>,
    /// The text snapshot taken when the tree was last rebuilt.
    pub parsed_text: Ghost<Seq<u8>>,
}

impl DataFlexDocument {
    /// Coherence: the text store is well-formed, and the tree, when
    /// present, is well-formed, was rebuilt from the text the line map
    /// holds now -- the engine never serves a tree older than the text --
    /// and its named leaves carry exactly the bytes of that text's lines
    /// at their recorded ranges.
    pub open spec fn wf(&self) -> bool {
        &&& self.line_map.wf()
        &&& self.tree matches Some(t) ==> t.wf() && self.parsed_text@ == self.line_map.spec_text()
            && crate::dataflex_parser::tree_tied(
            t.nodes@,
            crate::line_map::spec_lines_of(self.line_map.spec_text()),
        )
    }

    /// Open a document: build the line map, parse, and build the token
    /// map against the given index state.
    pub fn new(text: &[u8], index: &Index) -> (r: DataFlexDocument)
        requires
            index.wf(),
        ensures
            r.wf(),
            r.line_map.spec_text() == text@,
            r.tree is Some,
    {
        let mut doc = DataFlexDocument {
            line_map: LineMap::new(text),
            parser: DataFlexTreeParser::new(),
            tree: None,
            syntax_map: None,
            parsed_text: Ghost(Seq::empty()),
        };
        doc.update(index);
        doc
    }

    /// Re-parse the current text and rebuild the token map.
    pub fn update(&mut self, index: &Index)
        requires
            old(self).line_map.wf(),
            index.wf(),
        ensures
            final(self).wf(),
            final(self).tree is Some,
            final(self).line_map == old(self).line_map,
    {
        let text = self.line_map.text();
        let tree = self.parser.parse(text.as_slice());
        self.parsed_text = Ghost(self.line_map.spec_text());
        let map = SyntaxMap::new(&tree, self.line_map.row_count(), index);
        self.tree = Some(tree);
        self.syntax_map = Some(map);
    }

    /// Replace the whole document text.
    pub fn replace_content(&mut self, text: &[u8], index: &Index)
        requires
            index.wf(),
        ensures
            final(self).wf(),
            final(self).line_map.spec_text() == text@,
            final(self).tree is Some,
    {
        self.line_map = LineMap::new(text);
        self.tree = None;
        self.update(index);
    }

    /// Apply the editor's changes in order, then re-parse once and
    /// rebuild the token map.  The final text is exactly the fold of the
    /// changes over the old text: a range-less change replaces the whole
    /// document, an addressable range splices, and a change whose range
    /// does not address the current text is ignored.
    pub fn edit_content(&mut self, changes: &Vec<ContentChange>, index: &Index)
        requires
            old(self).line_map.wf(),
            index.wf(),
        ensures
            final(self).wf(),
            final(self).tree is Some,
            final(self).line_map.spec_text() == spec_apply_changes(
                old(self).line_map.spec_text(),
                changes@,
                changes@.len() as int,
            ),
    {
        let ghost text0 = self.line_map.spec_text();
        let mut i: usize = 0;
        while i < changes.len()
            invariant
                self.line_map.wf(),
                i <= changes@.len(),
                self.line_map.spec_text() == spec_apply_changes(text0, changes@, i as int),
            decreases changes@.len() - i,
        {
            let change = &changes[i];
            match change.range {
                None => {
                    self.line_map = LineMap::new(change.text.as_slice());
                    self.tree = None;
                },
                Some((start, end)) => {
                    proof {
                        self.line_map.lemma_lines_determined();
                    }
                    if self.splice_is_valid(&start, &end, change.text.len()) {
                        let ghost before = self.line_map.spec_text();
                        self.line_map.replace_range(start, end, change.text.as_slice());
                        proof {
                            assert(self.line_map.spec_text() =~= spec_splice(
                                before,
                                start,
                                end,
                                change.text@,
                            ));
                        }
                    }
                },
            }
            i += 1;
        }
        self.update(index);
    }

    /// Whether a splice range addresses the current text.
    fn splice_is_valid(&self, start: &Point, end: &Point, add_len: usize) -> (r: bool)
        requires
            self.line_map.wf(),
        ensures
            r == splice_applies(self.line_map.spec_text(), *start, *end, add_len as int),
            r ==> {
                &&& start.row < self.line_map.lines_seq().len()
                &&& end.row < self.line_map.lines_seq().len()
                &&& self.line_map.valid_point(*start)
                &&& self.line_map.valid_point(*end)
                &&& start.spec_le(*end)
                &&& self.line_map.spec_text().len() + add_len <= usize::MAX
            },
    {
        proof {
            self.line_map.lemma_lines_determined();
        }
        let count = self.line_map.line_count();
        if start.row >= count || end.row >= count {
            return false;
        }
        let start_line_len = match self.line_map.line_text_with_ending(start.row) {
            Some(l) => l.len(),
            None => {
                return false;
            },
        };
        let end_line_len = match self.line_map.line_text_with_ending(end.row) {
            Some(l) => l.len(),
            None => {
                return false;
            },
        };
        if start.column > start_line_len || end.column > end_line_len {
            return false;
        }
        if !start.le(end) {
            return false;
        }
        let total = self.line_map.text().len();
        if add_len > usize::MAX - total {
            return false;
        }
        true
    }

    /// The document's full semantic token stream: the token map
    /// flattened from its first line, or nothing while no map exists.
    pub fn semantic_tokens_full(&self) -> (r: Option<Vec<SemanticToken>>)
        ensures
            r is Some <==> self.syntax_map is Some,
            r matches Some(ts) ==> self.syntax_map matches Some(m) && ts@
                == crate::syntax_map::spec_flatten(
                m.spec_lines(),
                0,
                m.spec_line_count(),
                crate::syntax_map::spec_prev_token_row(m.spec_lines(), 0),
            ),
    {
        match &self.syntax_map {
            Some(map) => Some(map.get_all_tokens()),
            None => None,
        }
    }

    /// Rebuild the token map against the current index state without
    /// re-parsing.  The map covers every addressable row: the line count,
    /// plus the trailing virtual row of a newline-terminated text.
    pub fn update_syntax_map(&mut self, index: &Index)
        requires
            old(self).wf(),
            index.wf(),
        ensures
            final(self).wf(),
            final(self).tree == old(self).tree,
            final(self).line_map == old(self).line_map,
            old(self).tree is None ==> final(self).syntax_map == old(self).syntax_map,
            old(self).tree matches Some(tree) ==> final(self).syntax_map matches Some(m)
                && m.spec_line_count() == crate::line_map::spec_row_count(
                old(self).line_map.lines_seq(),
            ) && m.spec_lines() == crate::syntax_map::spec_token_lines(
                tree.nodes@,
                tree.nodes@.len() as int,
                crate::line_map::spec_row_count(old(self).line_map.lines_seq()),
                index.spec_tables(),
            ).0,
    {
        match &self.tree {
            Some(tree) => {
                let map = SyntaxMap::new(tree, self.line_map.row_count(), index);
                self.syntax_map = Some(map);
                proof {
                    assert(final(self).line_map == old(self).line_map);
                }
            },
            None => {},
        }
    }

    /// The symbol name spelled by the leaf at a position, if any.
    pub fn symbol_at_position(&self, position: Point) -> (r: Option<SymbolName>)
        requires
            self.wf(),
        ensures
            self.tree is None ==> r is None,
            self.tree matches Some(t) ==> match spec_symbol_leaf(t.nodes@, position) {
                Some(leaf) => r matches Some(n) && n@ == crate::text::decoded_of(
                    t.nodes@[leaf].text@,
                ),
                None => r is None,
            },
    {
        let tree = match &self.tree {
            Some(t) => t,
            None => {
                return None;
            },
        };
        let mut cursor = DataFlexTreeCursor::new(tree);
        if !cursor.goto_first_leaf_node_for_point(position) {
            return None;
        }
        if matches!(cursor.kind(), NodeKind::Identifier) {
            Some(SymbolName::from_bytes(cursor.text().as_slice()))
        } else {
            None
        }
    }

    /// The definition location of the symbol at a position: the first
    /// resolved symbol's file and declaration point.
    pub fn find_definition(&self, index: &Index, position: Point) -> (r: Option<
        DefinitionLocation,
    >)
        requires
            self.wf(),
            index.wf(),
        ensures
            self.tree is None ==> r is None,
            self.tree matches Some(t) && crate::document_context::spec_context(t.nodes@, position)
                is None ==> r is None,
            self.tree matches Some(t) ==> (crate::document_context::spec_context(
                t.nodes@,
                position,
            ) == Some(crate::document_context::DocumentContext::ClassReference)
                ==> match spec_symbol_leaf(t.nodes@, position) {
                None => r is None,
                Some(leaf) => ({
                    let name = crate::text::decoded_of(t.nodes@[leaf].text@);
                    if !index.spec_tables().classes.contains_key(name) {
                        r is None
                    } else {
                        let rv = index.spec_tables().classes[name];
                        &&& (r is Some <==> crate::reference_resolver::ref_resolvable(index, rv))
                        &&& (r matches Some(d) ==> d.path@ == index.spec_files()[rv.file].path
                            && d.location == crate::reference_resolver::spec_symbol_location(
                            crate::reference_resolver::spec_resolved_symbol(index, rv),
                        ))
                    }
                }),
            }),
            self.tree matches Some(t) ==> (crate::document_context::spec_context(
                t.nodes@,
                position,
            ) matches Some(crate::document_context::DocumentContext::MethodReference(k)) ==> {
                &&& (r matches Some(d) ==> match spec_symbol_leaf(t.nodes@, position) {
                    None => false,
                    Some(leaf) => crate::reference_resolver::method_definition(
                        index,
                        k,
                        crate::text::decoded_of(t.nodes@[leaf].text@),
                        d,
                    ),
                })
                &&& (!crate::reference_resolver::spec_receiver_resolves(t.nodes@, index, position)
                    ==> (r is Some <==> match spec_symbol_leaf(t.nodes@, position) {
                    None => false,
                    Some(leaf) => crate::reference_resolver::any_candidate_resolvable(
                        index,
                        k,
                        crate::text::decoded_of(t.nodes@[leaf].text@),
                    ),
                }))
            }),
    {
        let snapshots = ReferenceResolver::resolve_reference(self, index, position);
        if snapshots.len() == 0 {
            proof {
                if self.tree is Some {
                    let t = self.tree->Some_0;
                    let ctx = crate::document_context::spec_context(t.nodes@, position);
                    if ctx is Some && ctx->Some_0 is MethodReference
                        && !crate::reference_resolver::spec_receiver_resolves(
                        t.nodes@,
                        index,
                        position,
                    ) && spec_symbol_leaf(t.nodes@, position) is Some {
                        let k = ctx->Some_0->MethodReference_0;
                        let leaf = spec_symbol_leaf(t.nodes@, position)->Some_0;
                        let name = crate::text::decoded_of(t.nodes@[leaf].text@);
                        if crate::reference_resolver::any_candidate_resolvable(index, k, name) {
                            let rv = choose|rv: crate::index::RefView|
                                crate::reference_resolver::method_candidate(
                                    index.spec_tables(),
                                    k,
                                    name,
                                    rv,
                                ) && crate::reference_resolver::ref_resolvable(index, rv);
                            assert(crate::reference_resolver::some_snapshot_of(
                                index,
                                rv,
                                snapshots@,
                            ));
                            assert(false);
                        }
                    }
                    if ctx == Some(crate::document_context::DocumentContext::ClassReference)
                        && spec_symbol_leaf(t.nodes@, position) is Some {
                        let leaf = spec_symbol_leaf(t.nodes@, position)->Some_0;
                        let name = crate::text::decoded_of(t.nodes@[leaf].text@);
                        if index.spec_tables().classes.contains_key(name) {
                            let rv = index.spec_tables().classes[name];
                            assert(index.snapshot_resolution(rv, None));
                            crate::reference_resolver::lemma_resolution_success(index, rv, None);
                        }
                    }
                }
            }
            return None;
        }
        let first = &snapshots[0];
        let location = match first.symbol {
            IndexSymbol::Class(c) => c.location,
            IndexSymbol::Method(m) => m.location,
            IndexSymbol::Property(p) => p.location,
        };
        let d = DefinitionLocation { path: first.path.clone(), location };
        proof {
            if self.tree is Some {
                let t = self.tree->Some_0;
                let ctx = crate::document_context::spec_context(t.nodes@, position);
                if ctx == Some(crate::document_context::DocumentContext::ClassReference) {
                    if spec_symbol_leaf(t.nodes@, position) is Some {
                        let leaf = spec_symbol_leaf(t.nodes@, position)->Some_0;
                        let name = crate::text::decoded_of(t.nodes@[leaf].text@);
                        assert(index.spec_tables().classes.contains_key(name));
                        let rv = index.spec_tables().classes[name];
                        assert(index.snapshot_resolution(rv, Some(snapshots@[0])));
                        crate::reference_resolver::lemma_resolution_success(
                            index,
                            rv,
                            Some(snapshots@[0]),
                        );
                        assert(d.path@ == index.spec_files()[rv.file].path);
                        assert(*snapshots@[0].symbol
                            == crate::reference_resolver::spec_resolved_symbol(index, rv));
                    }
                }
                if ctx is Some && ctx->Some_0 is MethodReference {
                    let k = ctx->Some_0->MethodReference_0;
                    if spec_symbol_leaf(t.nodes@, position) is Some {
                        let leaf = spec_symbol_leaf(t.nodes@, position)->Some_0;
                        let name = crate::text::decoded_of(t.nodes@[leaf].text@);
                        assert(crate::reference_resolver::resolves_some_candidate(
                            index,
                            k,
                            name,
                            snapshots@[0],
                        ));
                        assert(d.path@ == snapshots@[0].path@ && d.location
                            == crate::reference_resolver::spec_symbol_location(
                            *snapshots@[0].symbol,
                        ));
                        assert(crate::reference_resolver::method_definition(index, k, name, d));
                        let rvw = choose|rv: crate::index::RefView|
                            crate::reference_resolver::method_candidate(
                                index.spec_tables(),
                                k,
                                name,
                                rv,
                            ) && index.snapshot_resolution(rv, Some(snapshots@[0]));
                        crate::reference_resolver::lemma_resolution_success(
                            index,
                            rvw,
                            Some(snapshots@[0]),
                        );
                        assert(crate::reference_resolver::any_candidate_resolvable(
                            index,
                            k,
                            name,
                        ));
                    }
                }
            }
        }
        Some(d)
    }

    /// Completion items for the context at a position: class names in a
    /// class slot, method and property names in a call slot.
    pub fn code_completion(&self, index: &Index, position: Point) -> (r: Option<
        Vec<CompletionItem>,
    >)
        requires
            self.wf(),
            index.wf(),
        ensures
            self.tree is None ==> r is None,
            self.tree matches Some(t) ==> match crate::document_context::spec_context(
                t.nodes@,
                position,
            ) {
                Some(
                    crate::document_context::DocumentContext::ClassReference,
                ) => r matches Some(items) && crate::code_completion::class_items(
                    index.spec_tables(),
                    items@,
                ),
                Some(
                    crate::document_context::DocumentContext::MethodReference(kind),
                ) => r matches Some(items) && crate::code_completion::method_items(
                    index.spec_tables(),
                    kind,
                    items@,
                ),
                None => r is None,
            },
    {
        CodeCompletion::code_completion(self, index, position)
    }
}

} // verus!
