//! Resolve the symbol at a position: classify the context, read the
//! symbol name under the cursor, infer the call receiver, and return
//! the matching symbol snapshots from the index.

use vstd::prelude::*;

use crate::dataflex_document::DataFlexDocument;
use crate::document_context::DocumentContext;
use crate::index::{
    ClassSymbol, Index, IndexSymbol, IndexSymbolRef, IndexSymbolSnapshot, IndexSymbolType,
    MethodKind, SymbolName,
};
use crate::dataflex_document::spec_symbol_leaf;
use crate::point::Point;
use crate::syntax_tree::{FieldName, NodeKind, SyntaxNode};
use crate::text::bytes_eq_ignore_case;
use crate::tree_cursor::{
    spec_child_by_field, spec_child_from, spec_enclosing_method_call,
    spec_enclosing_object_or_class, spec_first_child_for_point, spec_leaf_for_point,
    DataFlexTreeCursor,
};
use vstd::string::StringSliceAdditionalSpecFns;

verus! {

/// The class-slot resolution at a position: nothing unless the position
/// falls on an identifier naming a known class; otherwise exactly the
/// re-resolution of the reference registered for that class.
pub open spec fn class_resolution(
    nodes: Seq<SyntaxNode>,
    index: &Index,
    position: Point,
    out: Seq<IndexSymbolSnapshot<&IndexSymbol>>,
) -> bool {
    &&& out.len() <= 1
    &&& match spec_symbol_leaf(nodes, position) {
        None => out.len() == 0,
        Some(leaf) => {
            let name = crate::text::decoded_of(nodes[leaf].text@);
            if !index.spec_tables().classes.contains_key(name) {
                out.len() == 0
            } else {
                index.snapshot_resolution(
                    index.spec_tables().classes[name],
                    if out.len() == 1 {
                        Some(out[0])
                    } else {
                        None
                    },
                )
            }
        },
    }
}

/// A reference counts as a candidate for a call slot of one kind when
/// the tables register it under the name as a method of that kind, or,
/// for the kinds that offer properties, as a property.
pub open spec fn method_candidate(
    t: crate::index::TablesView,
    kind: MethodKind,
    name: Seq<char>,
    rv: crate::index::RefView,
) -> bool {
    ||| t.methods(kind).contains_key(name) && t.methods(kind)[name].contains(rv)
    ||| crate::code_completion::CodeCompletion::offers_properties(kind) && t.properties.contains_key(
        name,
    ) && t.properties[name].contains(rv)
}

/// A snapshot resolves some candidate reference for the name: the
/// re-resolution of a reference the tables register under it.
pub open spec fn resolves_some_candidate(
    index: &Index,
    kind: MethodKind,
    name: Seq<char>,
    s: IndexSymbolSnapshot<&IndexSymbol>,
) -> bool {
    exists|rv: crate::index::RefView|
        method_candidate(index.spec_tables(), kind, name, rv) && index.snapshot_resolution(
            rv,
            Some(s),
        )
}

/// The node a receiver query works from: the leaf at the position,
/// climbed to its enclosing send, get or set statement when one exists;
/// the root when the position lies outside every top-level node.
pub open spec fn spec_call_node(nodes: Seq<SyntaxNode>, position: Point) -> int {
    if spec_first_child_for_point(nodes, 0, position, 1) is None {
        0
    } else {
        let leaf = spec_leaf_for_point(nodes, 0, position);
        match spec_enclosing_method_call(nodes, leaf) {
            Some(c) => c,
            None => leaf,
        }
    }
}

/// Whether the call's receiver is absent or spells `self`, ASCII
/// case-insensitively.
pub open spec fn spec_receiver_is_self(nodes: Seq<SyntaxNode>, call: int) -> bool {
    match spec_child_by_field(nodes, call, FieldName::Receiver, call + 1) {
        Some(rc) => crate::text::eq_ignore_case(nodes[rc].text@, "self".spec_bytes()),
        None => true,
    }
}

/// The class name a self-receiver call resolves through: inside a class
/// definition its own declared name, inside an object definition the
/// superclass its header declares; nothing for any other receiver or
/// outside both.
pub open spec fn spec_receiver_class_name(nodes: Seq<SyntaxNode>, position: Point) -> Option<
    Seq<u8>,
> {
    let call = spec_call_node(nodes, position);
    if !spec_receiver_is_self(nodes, call) {
        None
    } else {
        match spec_enclosing_object_or_class(nodes, call) {
            None => None,
            Some(def) => match spec_child_from(nodes, def, def + 1) {
                None => None,
                Some(h) => if !(nodes[h].kind == NodeKind::ObjectHeader || nodes[h].kind
                    == NodeKind::ClassHeader) {
                    None
                } else if nodes[def].kind == NodeKind::ObjectDefinition {
                    match crate::index::indexer::last_superclass_child(
                        nodes,
                        h,
                        nodes.len() as int,
                    ) {
                        Some(sup) => Some(nodes[sup].text@),
                        None => None,
                    }
                } else {
                    match spec_child_by_field(nodes, h, FieldName::Name, h + 1) {
                        Some(nm) => Some(nodes[nm].text@),
                        None => None,
                    }
                },
            },
        }
    }
}

/// How a class name resolves through the class table to a live class
/// symbol: the registered reference's file must be present and its path
/// must descend to a class of that name.
pub open spec fn spec_class_lookup(
    index: &Index,
    name: Seq<char>,
    r: Option<&ClassSymbol>,
) -> bool {
    if !index.spec_tables().classes.contains_key(name) {
        r is None
    } else {
        let rv = index.spec_tables().classes[name];
        if rv.path.len() == 0 || !index.spec_files().contains_key(rv.file) {
            r is None
        } else {
            match crate::index::find_named_projected::<ClassSymbol>(
                index.spec_stored_symbols(rv.file),
                rv.path.last(),
                0,
            ) {
                Some(j) => r matches Some(c) && Some(c) == ClassSymbol::spec_of_symbol(
                    &index.spec_stored_symbols(rv.file)[j],
                ),
                None => r is None,
            }
        }
    }
}

/// Whether a stored reference re-resolves to a live symbol: its file is
/// present and its path descends by name, one component to a top-level
/// symbol, two into a class's members.
pub open spec fn ref_resolvable(index: &Index, rv: crate::index::RefView) -> bool {
    &&& index.spec_files().contains_key(rv.file)
    &&& 1 <= rv.path.len() <= 2
    &&& match crate::index::find_top_named(index.spec_stored_symbols(rv.file), rv.path[0], 0) {
        None => false,
        Some(j) => rv.path.len() == 1 || (index.spec_stored_symbols(rv.file)[j] is Class
            && crate::index::find_top_named(
            index.spec_stored_symbols(rv.file)[j]->Class_0.members@,
            rv.path[1],
            0,
        ) is Some),
    }
}

/// A re-resolution succeeds exactly on the resolvable references.
pub proof fn lemma_resolution_success(
    index: &Index,
    rv: crate::index::RefView,
    r: Option<IndexSymbolSnapshot<&IndexSymbol>>,
)
    requires
        index.snapshot_resolution(rv, r),
    ensures
        r is Some <==> ref_resolvable(index, rv),
{
}

/// Some element of `out` is the re-resolution of `rv`.
pub open spec fn some_snapshot_of(
    index: &Index,
    rv: crate::index::RefView,
    out: Seq<IndexSymbolSnapshot<&IndexSymbol>>,
) -> bool {
    exists|i: int| 0 <= i < out.len() && index.snapshot_resolution(rv, Some(out[i]))
}

/// Growing the output keeps every reference it already resolves.
pub proof fn lemma_some_snapshot_push(
    index: &Index,
    rv: crate::index::RefView,
    out: Seq<IndexSymbolSnapshot<&IndexSymbol>>,
    s: IndexSymbolSnapshot<&IndexSymbol>,
)
    requires
        some_snapshot_of(index, rv, out),
    ensures
        some_snapshot_of(index, rv, out.push(s)),
{
    let i = choose|i: int| 0 <= i < out.len() && index.snapshot_resolution(rv, Some(out[i]));
    assert(out.push(s)[i] == out[i]);
    assert(index.snapshot_resolution(rv, Some(out.push(s)[i])));
}

/// Some element of `cands` reads as `rv`.
pub open spec fn among_views(
    rv: crate::index::RefView,
    cands: Seq<&IndexSymbolRef>,
) -> bool {
    exists|j: int| 0 <= j < cands.len() && cands[j]@ == rv
}

/// Growing the candidate list keeps every reference it already holds.
pub proof fn lemma_among_views_push(
    rv: crate::index::RefView,
    cands: Seq<&IndexSymbolRef>,
    c: &IndexSymbolRef,
)
    requires
        among_views(rv, cands),
    ensures
        among_views(rv, cands.push(c)),
{
    let j = choose|j: int| 0 <= j < cands.len() && cands[j]@ == rv;
    assert(cands.push(c)[j] == cands[j]);
}

/// Every reference the method table of the kind registers under the name
/// stands among the candidates.
pub open spec fn methods_covered(
    index: &Index,
    kind: MethodKind,
    name: Seq<char>,
    cands: Seq<&IndexSymbolRef>,
) -> bool {
    forall|rv: crate::index::RefView|
        index.spec_tables().methods(kind).contains_key(name) && index.spec_tables().methods(
            kind,
        )[name].contains(rv) ==> #[trigger] among_views(rv, cands)
}

/// Every reference the property table registers under the name stands
/// among the candidates.
pub open spec fn properties_covered(
    index: &Index,
    name: Seq<char>,
    cands: Seq<&IndexSymbolRef>,
) -> bool {
    forall|rv: crate::index::RefView|
        index.spec_tables().properties.contains_key(name)
            && index.spec_tables().properties[name].contains(rv) ==> #[trigger] among_views(
            rv,
            cands,
        )
}

/// Whether the receiver of the call at the position resolves to a class:
/// the inferred class name is registered and its reference descends to a
/// live class.
pub open spec fn spec_receiver_resolves(
    nodes: Seq<SyntaxNode>,
    index: &Index,
    position: Point,
) -> bool {
    match spec_receiver_class_name(nodes, position) {
        None => false,
        Some(nb) => {
            let name = crate::text::decoded_of(nb);
            &&& index.spec_tables().classes.contains_key(name)
            &&& {
                let rv = index.spec_tables().classes[name];
                rv.path.len() > 0 && index.spec_files().contains_key(rv.file)
                    && crate::index::find_named_projected::<ClassSymbol>(
                    index.spec_stored_symbols(rv.file),
                    rv.path.last(),
                    0,
                ) is Some
            }
        },
    }
}

/// The class stored for a name, when the class table resolves it to a
/// live class.
pub open spec fn spec_lookup_class(index: &Index, name: Seq<char>) -> Option<ClassSymbol> {
    if !index.spec_tables().classes.contains_key(name) {
        None
    } else {
        let rv = index.spec_tables().classes[name];
        if rv.path.len() == 0 || !index.spec_files().contains_key(rv.file) {
            None
        } else {
            match crate::index::find_named_projected::<ClassSymbol>(
                index.spec_stored_symbols(rv.file),
                rv.path.last(),
                0,
            ) {
                Some(j) => Some(index.spec_stored_symbols(rv.file)[j]->Class_0),
                None => None,
            }
        }
    }
}

/// Whether some resolvable same-named candidate is a member the class
/// declares.
pub open spec fn class_declares(
    index: &Index,
    kind: MethodKind,
    name: Seq<char>,
    cls: ClassSymbol,
) -> bool {
    exists|rv: crate::index::RefView|
        method_candidate(index.spec_tables(), kind, name, rv) && ref_resolvable(index, rv)
            && rv.path.len() >= 2 && rv.path[rv.path.len() - 2] == cls.name@
}

/// The first class on the superclass chain, starting at `cls`, that
/// declares a resolvable same-named candidate, within `fuel` lookups.
pub open spec fn spec_first_declaring_class(
    index: &Index,
    kind: MethodKind,
    name: Seq<char>,
    cls: ClassSymbol,
    fuel: nat,
) -> Option<ClassSymbol>
    decreases fuel,
{
    if fuel == 0 {
        None
    } else if class_declares(index, kind, name, cls) {
        Some(cls)
    } else {
        match spec_lookup_class(index, cls.superclass@) {
            None => None,
            Some(nx) => spec_first_declaring_class(index, kind, name, nx, (fuel - 1) as nat),
        }
    }
}

/// The snapshot re-resolves a same-named candidate that the class
/// declares.
pub open spec fn declared_pick(
    index: &Index,
    kind: MethodKind,
    name: Seq<char>,
    cls: ClassSymbol,
    s: IndexSymbolSnapshot<&IndexSymbol>,
) -> bool {
    exists|rv: crate::index::RefView|
        method_candidate(index.spec_tables(), kind, name, rv) && rv.path.len() >= 2 && rv.path[
            rv.path.len() - 2] == cls.name@ && index.snapshot_resolution(rv, Some(s))
}

/// The declaration point a symbol carries.
pub open spec fn spec_symbol_location(s: IndexSymbol) -> Point {
    match s {
        IndexSymbol::Class(c) => c.location,
        IndexSymbol::Method(m) => m.location,
        IndexSymbol::Property(p) => p.location,
    }
}

/// The live symbol a resolvable reference descends to.
pub open spec fn spec_resolved_symbol(index: &Index, rv: crate::index::RefView) -> IndexSymbol {
    let syms = index.spec_stored_symbols(rv.file);
    let j = crate::index::find_top_named(syms, rv.path[0], 0)->Some_0;
    if rv.path.len() == 1 {
        syms[j]
    } else {
        syms[j]->Class_0.members@[crate::index::find_top_named(
            syms[j]->Class_0.members@,
            rv.path[1],
            0,
        )->Some_0]
    }
}

/// Some same-named candidate of the kind re-resolves.
pub open spec fn any_candidate_resolvable(
    index: &Index,
    kind: MethodKind,
    name: Seq<char>,
) -> bool {
    exists|rv: crate::index::RefView|
        method_candidate(index.spec_tables(), kind, name, rv) && ref_resolvable(index, rv)
}

/// A definition location projected from a snapshot that resolves some
/// same-named candidate of the kind.
pub open spec fn method_definition(
    index: &Index,
    kind: MethodKind,
    name: Seq<char>,
    d: crate::dataflex_document::DefinitionLocation,
) -> bool {
    exists|s: IndexSymbolSnapshot<&IndexSymbol>|
        resolves_some_candidate(index, kind, name, s) && d.path@ == s.path@ && d.location
            == spec_symbol_location(*s.symbol)
}

/// The reference resolver.
pub struct ReferenceResolver {}

impl ReferenceResolver {
    /// The symbol snapshots the position refers to: a class in a class
    /// slot, methods (and, for value contexts, properties) in a call
    /// slot, nothing elsewhere.
    pub fn resolve_reference<'a>(
        doc: &DataFlexDocument,
        index: &'a Index,
        position: Point,
    ) -> (r: Vec<IndexSymbolSnapshot<&'a IndexSymbol>>)
        requires
            doc.wf(),
            index.wf(),
        ensures
            doc.tree is None ==> r@.len() == 0,
            doc.tree matches Some(t) ==> match crate::document_context::spec_context(
                t.nodes@,
                position,
            ) {
                None => r@.len() == 0,
                Some(DocumentContext::ClassReference) => class_resolution(
                    t.nodes@,
                    index,
                    position,
                    r@,
                ),
                Some(DocumentContext::MethodReference(k)) => {
                    &&& match spec_symbol_leaf(t.nodes@, position) {
                        None => r@.len() == 0,
                        Some(leaf) => forall|i: int|
                            0 <= i < r@.len() ==> resolves_some_candidate(
                                index,
                                k,
                                crate::text::decoded_of(t.nodes@[leaf].text@),
                                #[trigger] r@[i],
                            ),
                    }
                    &&& (spec_receiver_resolves(t.nodes@, index, position) ==> r@.len() <= 1)
                    &&& (spec_receiver_resolves(t.nodes@, index, position)
                        ==> match spec_symbol_leaf(t.nodes@, position) {
                        None => r@.len() == 0,
                        Some(leaf) => ({
                            let name = crate::text::decoded_of(t.nodes@[leaf].text@);
                            let rcv = spec_lookup_class(
                                index,
                                crate::text::decoded_of(
                                    spec_receiver_class_name(t.nodes@, position)->Some_0,
                                ),
                            )->Some_0;
                            match spec_first_declaring_class(index, k, name, rcv, 64) {
                                Some(cls) => r@.len() == 1 && declared_pick(
                                    index,
                                    k,
                                    name,
                                    cls,
                                    r@[0],
                                ),
                                None => r@.len() == 0,
                            }
                        }),
                    })
                    &&& (!spec_receiver_resolves(t.nodes@, index, position)
                        ==> match spec_symbol_leaf(t.nodes@, position) {
                        None => true,
                        Some(leaf) => forall|rv: crate::index::RefView|
                            method_candidate(
                                index.spec_tables(),
                                k,
                                crate::text::decoded_of(t.nodes@[leaf].text@),
                                rv,
                            ) && ref_resolvable(index, rv) ==> some_snapshot_of(index, rv, r@),
                    })
                },
            },
    {
        match DocumentContext::context(doc, position) {
            Some(DocumentContext::ClassReference) => Self::resolve_class_reference(
                doc,
                index,
                position,
            ),
            Some(DocumentContext::MethodReference(kind)) => Self::resolve_method_reference(
                doc,
                index,
                position,
                kind,
            ),
            None => Vec::new(),
        }
    }

    /// Resolve the class named at the position.
    pub fn resolve_class_reference<'a>(
        doc: &DataFlexDocument,
        index: &'a Index,
        position: Point,
    ) -> (r: Vec<IndexSymbolSnapshot<&'a IndexSymbol>>)
        requires
            doc.wf(),
            index.wf(),
        ensures
            doc.tree is None ==> r@.len() == 0,
            doc.tree matches Some(t) ==> class_resolution(t.nodes@, index, position, r@),
    {
        let mut out: Vec<IndexSymbolSnapshot<&'a IndexSymbol>> = Vec::new();
        let name = match doc.symbol_at_position(position) {
            Some(n) => n,
            None => {
                return out;
            },
        };
        let symbol_ref = match index.lookup_tables().class_ref(&name) {
            Some(s) => s,
            None => {
                return out;
            },
        };
        match index.symbol_snapshot(symbol_ref) {
            Some(snapshot) => {
                out.push(snapshot);
            },
            None => {},
        }
        out
    }

    /// Resolve the method or property named at the position.  With a
    /// resolvable receiver, walk the receiver class's hierarchy and keep
    /// the first declaring class's member; otherwise return every
    /// same-named candidate.
    pub fn resolve_method_reference<'a>(
        doc: &DataFlexDocument,
        index: &'a Index,
        position: Point,
        kind: MethodKind,
    ) -> (r: Vec<IndexSymbolSnapshot<&'a IndexSymbol>>)
        requires
            doc.wf(),
            index.wf(),
        ensures
            doc.tree is None ==> r@.len() == 0,
            doc.tree matches Some(t) ==> match spec_symbol_leaf(t.nodes@, position) {
                None => r@.len() == 0,
                Some(leaf) => forall|i: int|
                    0 <= i < r@.len() ==> resolves_some_candidate(
                        index,
                        kind,
                        crate::text::decoded_of(t.nodes@[leaf].text@),
                        #[trigger] r@[i],
                    ),
            },
            doc.tree matches Some(t) ==> (spec_receiver_resolves(t.nodes@, index, position)
                ==> r@.len() <= 1),
            doc.tree matches Some(t) ==> (spec_receiver_resolves(t.nodes@, index, position)
                ==> match spec_symbol_leaf(t.nodes@, position) {
                None => r@.len() == 0,
                Some(leaf) => ({
                    let name = crate::text::decoded_of(t.nodes@[leaf].text@);
                    let rcv = spec_lookup_class(
                        index,
                        crate::text::decoded_of(
                            spec_receiver_class_name(t.nodes@, position)->Some_0,
                        ),
                    )->Some_0;
                    match spec_first_declaring_class(index, kind, name, rcv, 64) {
                        Some(cls) => r@.len() == 1 && declared_pick(index, kind, name, cls, r@[0]),
                        None => r@.len() == 0,
                    }
                }),
            }),
            doc.tree matches Some(t) ==> (!spec_receiver_resolves(t.nodes@, index, position)
                ==> match spec_symbol_leaf(t.nodes@, position) {
                None => true,
                Some(leaf) => forall|rv: crate::index::RefView|
                    method_candidate(
                        index.spec_tables(),
                        kind,
                        crate::text::decoded_of(t.nodes@[leaf].text@),
                        rv,
                    ) && ref_resolvable(index, rv) ==> some_snapshot_of(index, rv, r@),
            }),
    {
        let mut out: Vec<IndexSymbolSnapshot<&'a IndexSymbol>> = Vec::new();
        let name = match doc.symbol_at_position(position) {
            Some(n) => n,
            None => {
                return out;
            },
        };
        let ghost gname = name@;
        let ghost gleaf = spec_symbol_leaf(doc.tree->Some_0.nodes@, position)->Some_0;

        // Gather the candidate references: methods of this kind, and for
        // value contexts the properties too.
        let mut candidates: Vec<&IndexSymbolRef> = Vec::new();
        match index.lookup_tables().method_refs(kind, &name) {
            Some(refs) => {
                let mut i: usize = 0;
                while i < refs.len()
                    invariant
                        i <= refs@.len(),
                        index.spec_tables().methods(kind).contains_key(gname),
                        crate::index::lookup_tables::refs_set(refs@) == index.spec_tables().methods(
                            kind,
                        )[gname],
                        forall|j: int|
                            0 <= j < candidates@.len() ==> method_candidate(
                                index.spec_tables(),
                                kind,
                                gname,
                                #[trigger] candidates@[j]@,
                            ),
                        forall|k: int|
                            0 <= k < i ==> among_views(#[trigger] refs@[k]@, candidates@),
                    decreases refs@.len() - i,
                {
                    proof {
                        assert(crate::index::lookup_tables::refs_set(refs@).contains(
                            refs@[i as int]@,
                        ));
                    }
                    let ghost prev = candidates@;
                    candidates.push(&refs[i]);
                    proof {
                        assert forall|k: int| 0 <= k < i + 1 implies among_views(
                            #[trigger] refs@[k]@,
                            candidates@,
                        ) by {
                            if k < i {
                                lemma_among_views_push(refs@[k]@, prev, &refs[i as int]);
                                assert(candidates@ == prev.push(&refs[i as int]));
                            } else {
                                assert(candidates@[prev.len() as int]@ == refs@[k]@);
                            }
                        }
                    }
                    i += 1;
                }
                proof {
                    assert forall|rv: crate::index::RefView|
                        index.spec_tables().methods(kind).contains_key(gname)
                            && index.spec_tables().methods(kind)[gname].contains(rv)
                        implies #[trigger] among_views(rv, candidates@) by {
                        assert(crate::index::lookup_tables::refs_set(refs@).contains(rv));
                        let k = choose|k: int| 0 <= k < refs@.len() && refs@[k]@ == rv;
                        assert(among_views(refs@[k]@, candidates@));
                    }
                    assert(methods_covered(index, kind, gname, candidates@));
                }
            },
            None => {
                proof {
                    assert(methods_covered(index, kind, gname, candidates@));
                }
            },
        }
        let with_properties = match kind {
            MethodKind::Procedure => false,
            MethodKind::Function => true,
            MethodKind::Setter => true,
        };
        if with_properties {
            match index.lookup_tables().property_refs(&name) {
                Some(refs) => {
                    let mut i: usize = 0;
                    while i < refs.len()
                        invariant
                            i <= refs@.len(),
                            crate::code_completion::CodeCompletion::offers_properties(kind),
                            index.spec_tables().properties.contains_key(gname),
                            crate::index::lookup_tables::refs_set(refs@)
                                == index.spec_tables().properties[gname],
                            forall|j: int|
                                0 <= j < candidates@.len() ==> method_candidate(
                                    index.spec_tables(),
                                    kind,
                                    gname,
                                    #[trigger] candidates@[j]@,
                                ),
                            methods_covered(index, kind, gname, candidates@),
                            forall|k: int|
                                0 <= k < i ==> among_views(#[trigger] refs@[k]@, candidates@),
                        decreases refs@.len() - i,
                    {
                        proof {
                            assert(crate::index::lookup_tables::refs_set(refs@).contains(
                                refs@[i as int]@,
                            ));
                        }
                        let ghost prev = candidates@;
                        candidates.push(&refs[i]);
                        proof {
                            assert forall|k: int| 0 <= k < i + 1 implies among_views(
                                #[trigger] refs@[k]@,
                                candidates@,
                            ) by {
                                if k < i {
                                    lemma_among_views_push(refs@[k]@, prev, &refs[i as int]);
                                    assert(candidates@ == prev.push(&refs[i as int]));
                                } else {
                                    assert(candidates@[prev.len() as int]@ == refs@[k]@);
                                }
                            }
                            assert forall|rv: crate::index::RefView|
                                index.spec_tables().methods(kind).contains_key(gname)
                                    && index.spec_tables().methods(kind)[gname].contains(rv)
                                implies #[trigger] among_views(rv, candidates@) by {
                                assert(among_views(rv, prev));
                                lemma_among_views_push(rv, prev, &refs[i as int]);
                                assert(candidates@ == prev.push(&refs[i as int]));
                            }
                            assert(methods_covered(index, kind, gname, candidates@));
                        }
                        i += 1;
                    }
                    proof {
                        assert forall|rv: crate::index::RefView|
                            index.spec_tables().properties.contains_key(gname)
                                && index.spec_tables().properties[gname].contains(rv)
                            implies #[trigger] among_views(rv, candidates@) by {
                            assert(crate::index::lookup_tables::refs_set(refs@).contains(rv));
                            let k = choose|k: int| 0 <= k < refs@.len() && refs@[k]@ == rv;
                            assert(among_views(refs@[k]@, candidates@));
                        }
                        assert(properties_covered(index, gname, candidates@));
                    }
                },
                None => {
                    proof {
                        assert(properties_covered(index, gname, candidates@));
                    }
                },
            }
        }

        match Self::resolve_call_receiver(doc, index, position) {
            Some(receiver_class) => {
                let ghost nodes0 = doc.tree->Some_0.nodes@;
                let ghost rcv = spec_lookup_class(
                    index,
                    crate::text::decoded_of(spec_receiver_class_name(nodes0, position)->Some_0),
                )->Some_0;
                proof {
                    assert(spec_receiver_resolves(nodes0, index, position));
                    assert(*receiver_class == rcv);
                }
                // Walk the hierarchy from the receiver class upward and
                // return the first candidate declared by a class on it.
                let mut current: Option<&ClassSymbol> = Some(receiver_class);
                // A bound on the walk: a cyclic superclass chain in the
                // indexed sources must not hang a query.
                let mut fuel: usize = 64;
                while fuel > 0
                    invariant
                        index.wf(),
                        fuel <= 64,
                        out@.len() == 0,
                        doc.tree matches Some(tt) && spec_symbol_leaf(tt.nodes@, position)
                            == Some(gleaf) && gname == crate::text::decoded_of(
                            tt.nodes@[gleaf].text@,
                        ) && spec_receiver_resolves(tt.nodes@, index, position)
                            && spec_receiver_class_name(tt.nodes@, position) is Some
                            && spec_lookup_class(
                            index,
                            crate::text::decoded_of(
                                spec_receiver_class_name(tt.nodes@, position)->Some_0,
                            ),
                        ) == Some(rcv),
                        methods_covered(index, kind, gname, candidates@),
                        crate::code_completion::CodeCompletion::offers_properties(kind)
                            ==> properties_covered(index, gname, candidates@),
                        forall|j: int|
                            0 <= j < candidates@.len() ==> method_candidate(
                                index.spec_tables(),
                                kind,
                                gname,
                                #[trigger] candidates@[j]@,
                            ),
                        match current {
                            Some(c) => spec_first_declaring_class(index, kind, gname, rcv, 64)
                                == spec_first_declaring_class(
                                index,
                                kind,
                                gname,
                                *c,
                                fuel as nat,
                            ),
                            None => spec_first_declaring_class(
                                index,
                                kind,
                                gname,
                                rcv,
                                64,
                            ) is None,
                        },
                    ensures
                        match current {
                            Some(c) => spec_first_declaring_class(index, kind, gname, rcv, 64)
                                == spec_first_declaring_class(
                                index,
                                kind,
                                gname,
                                *c,
                                fuel as nat,
                            ) && fuel == 0,
                            None => spec_first_declaring_class(
                                index,
                                kind,
                                gname,
                                rcv,
                                64,
                            ) is None,
                        },
                    decreases fuel,
                {
                    let ghost fuel_head = fuel as nat;
                    fuel -= 1;
                    let class = match current {
                        Some(c) => c,
                        None => {
                            return out;
                        },
                    };
                    let mut i: usize = 0;
                    while i < candidates.len()
                        invariant
                            index.wf(),
                            i <= candidates@.len(),
                            out@.len() == 0,
                            fuel_head >= 1,
                            doc.tree matches Some(tt) && spec_symbol_leaf(tt.nodes@, position)
                                == Some(gleaf) && gname == crate::text::decoded_of(
                                tt.nodes@[gleaf].text@,
                            ) && spec_receiver_resolves(tt.nodes@, index, position)
                                && spec_receiver_class_name(tt.nodes@, position) is Some
                                && spec_lookup_class(
                                index,
                                crate::text::decoded_of(
                                    spec_receiver_class_name(tt.nodes@, position)->Some_0,
                                ),
                            ) == Some(rcv),
                            methods_covered(index, kind, gname, candidates@),
                            crate::code_completion::CodeCompletion::offers_properties(kind)
                                ==> properties_covered(index, gname, candidates@),
                            spec_first_declaring_class(index, kind, gname, rcv, 64)
                                == spec_first_declaring_class(
                                index,
                                kind,
                                gname,
                                *class,
                                fuel_head,
                            ),
                            forall|j: int|
                                0 <= j < candidates@.len() ==> method_candidate(
                                    index.spec_tables(),
                                    kind,
                                    gname,
                                    #[trigger] candidates@[j]@,
                                ),
                            forall|j: int|
                                0 <= j < i ==> !((#[trigger] candidates@[j]@).path.len() >= 2
                                    && candidates@[j]@.path[candidates@[j]@.path.len() - 2]
                                    == class.name@ && ref_resolvable(index, candidates@[j]@)),
                        decreases candidates@.len() - i,
                    {
                        let member_ref = candidates[i];
                        let ghost cur_rv = candidates@[i as int]@;
                        match member_ref.symbol_path.parent_name() {
                            Some(parent) => {
                                if parent == &class.name {
                                    proof {
                                        assert(cur_rv.path.len() >= 2 && cur_rv.path[cur_rv.path.len()
                                            - 2] == class.name@);
                                    }
                                    match index.symbol_snapshot(member_ref) {
                                        Some(snapshot) => {
                                            proof {
                                                lemma_resolution_success(
                                                    index,
                                                    cur_rv,
                                                    Some(snapshot),
                                                );
                                                assert(resolves_some_candidate(
                                                    index,
                                                    kind,
                                                    gname,
                                                    snapshot,
                                                )) by {
                                                    assert(method_candidate(
                                                        index.spec_tables(),
                                                        kind,
                                                        gname,
                                                        cur_rv,
                                                    ) && index.snapshot_resolution(
                                                        cur_rv,
                                                        Some(snapshot),
                                                    ));
                                                }
                                                assert(class_declares(
                                                    index,
                                                    kind,
                                                    gname,
                                                    *class,
                                                )) by {
                                                    assert(method_candidate(
                                                        index.spec_tables(),
                                                        kind,
                                                        gname,
                                                        cur_rv,
                                                    ) && ref_resolvable(index, cur_rv)
                                                        && cur_rv.path.len() >= 2
                                                        && cur_rv.path[cur_rv.path.len() - 2]
                                                        == class.name@);
                                                }
                                                assert(spec_first_declaring_class(
                                                    index,
                                                    kind,
                                                    gname,
                                                    *class,
                                                    fuel_head,
                                                ) == Some(*class));
                                                assert(declared_pick(
                                                    index,
                                                    kind,
                                                    gname,
                                                    *class,
                                                    snapshot,
                                                )) by {
                                                    assert(method_candidate(
                                                        index.spec_tables(),
                                                        kind,
                                                        gname,
                                                        cur_rv,
                                                    ) && cur_rv.path.len() >= 2
                                                        && cur_rv.path[cur_rv.path.len() - 2]
                                                        == class.name@
                                                        && index.snapshot_resolution(
                                                        cur_rv,
                                                        Some(snapshot),
                                                    ));
                                                }
                                            }
                                            out.push(snapshot);
                                            proof {
                                                assert(out@[0] == snapshot);
                                            }
                                            return out;
                                        },
                                        None => {
                                            proof {
                                                lemma_resolution_success(index, cur_rv, None);
                                            }
                                        },
                                    }
                                }
                            },
                            None => {},
                        }
                        i += 1;
                    }
                    proof {
                        assert(!class_declares(index, kind, gname, *class)) by {
                            if class_declares(index, kind, gname, *class) {
                                let rv = choose|rv: crate::index::RefView|
                                    method_candidate(index.spec_tables(), kind, gname, rv)
                                        && ref_resolvable(index, rv) && rv.path.len() >= 2
                                        && rv.path[rv.path.len() - 2] == class.name@;
                                assert(among_views(rv, candidates@)) by {
                                    if index.spec_tables().methods(kind).contains_key(gname)
                                        && index.spec_tables().methods(kind)[gname].contains(rv) {
                                        assert(among_views(rv, candidates@));
                                    } else {
                                        assert(crate::code_completion::CodeCompletion::offers_properties(
                                            kind,
                                        ) && index.spec_tables().properties.contains_key(gname)
                                            && index.spec_tables().properties[gname].contains(rv));
                                        assert(among_views(rv, candidates@));
                                    }
                                }
                                let j = choose|j: int|
                                    0 <= j < candidates@.len() && candidates@[j]@ == rv;
                                assert(candidates@[j]@ == rv);
                                assert(false);
                            }
                        }
                    }
                    current = match index.find_class(&class.superclass) {
                        Some(snapshot) => Some(snapshot.symbol),
                        None => None,
                    };
                    proof {
                        match current {
                            Some(c) => {
                                assert(spec_lookup_class(index, class.superclass@) == Some(*c));
                                assert(spec_first_declaring_class(
                                    index,
                                    kind,
                                    gname,
                                    *class,
                                    fuel_head,
                                ) == spec_first_declaring_class(
                                    index,
                                    kind,
                                    gname,
                                    *c,
                                    fuel as nat,
                                ));
                            },
                            None => {
                                assert(spec_lookup_class(index, class.superclass@) is None);
                                assert(spec_first_declaring_class(
                                    index,
                                    kind,
                                    gname,
                                    *class,
                                    fuel_head,
                                ) is None);
                            },
                        }
                    }
                }
                out
            },
            None => {
                proof {
                    assert(!spec_receiver_resolves(doc.tree->Some_0.nodes@, index, position));
                }
                // No concrete receiver: every candidate resolves.
                let mut i: usize = 0;
                while i < candidates.len()
                    invariant
                        index.wf(),
                        i <= candidates@.len(),
                        doc.tree matches Some(tt) && spec_symbol_leaf(tt.nodes@, position)
                            == Some(gleaf) && gname == crate::text::decoded_of(
                            tt.nodes@[gleaf].text@,
                        ) && !spec_receiver_resolves(tt.nodes@, index, position),
                        methods_covered(index, kind, gname, candidates@),
                        crate::code_completion::CodeCompletion::offers_properties(kind)
                            ==> properties_covered(index, gname, candidates@),
                        forall|j: int|
                            0 <= j < candidates@.len() ==> method_candidate(
                                index.spec_tables(),
                                kind,
                                gname,
                                #[trigger] candidates@[j]@,
                            ),
                        forall|j: int|
                            0 <= j < out@.len() ==> resolves_some_candidate(
                                index,
                                kind,
                                gname,
                                #[trigger] out@[j],
                            ),
                        forall|jj: int|
                            0 <= jj < i ==> !ref_resolvable(index, #[trigger] candidates@[jj]@)
                                || some_snapshot_of(index, candidates@[jj]@, out@),
                    decreases candidates@.len() - i,
                {
                    let ghost prev_out = out@;
                    let ghost cur_rv = candidates@[i as int]@;
                    match index.symbol_snapshot(candidates[i]) {
                        Some(snapshot) => {
                            proof {
                                assert(resolves_some_candidate(index, kind, gname, snapshot)) by {
                                    assert(method_candidate(
                                        index.spec_tables(),
                                        kind,
                                        gname,
                                        candidates@[i as int]@,
                                    ) && index.snapshot_resolution(
                                        candidates@[i as int]@,
                                        Some(snapshot),
                                    ));
                                }
                            }
                            out.push(snapshot);
                            proof {
                                assert forall|j: int|
                                    0 <= j < out@.len() implies resolves_some_candidate(
                                    index,
                                    kind,
                                    gname,
                                    #[trigger] out@[j],
                                ) by {
                                    if j < prev_out.len() {
                                        assert(out@[j] == prev_out[j]);
                                        assert(resolves_some_candidate(
                                            index,
                                            kind,
                                            gname,
                                            prev_out[j],
                                        ));
                                    } else {
                                        assert(out@[j] == snapshot);
                                    }
                                }
                                assert forall|jj: int| 0 <= jj < i + 1 implies !ref_resolvable(
                                    index,
                                    #[trigger] candidates@[jj]@,
                                ) || some_snapshot_of(index, candidates@[jj]@, out@) by {
                                    if jj < i {
                                        if ref_resolvable(index, candidates@[jj]@) {
                                            assert(some_snapshot_of(
                                                index,
                                                candidates@[jj]@,
                                                prev_out,
                                            ));
                                            lemma_some_snapshot_push(
                                                index,
                                                candidates@[jj]@,
                                                prev_out,
                                                snapshot,
                                            );
                                            assert(out@ == prev_out.push(snapshot));
                                        }
                                    } else {
                                        assert(out@[prev_out.len() as int] == snapshot);
                                        assert(index.snapshot_resolution(
                                            cur_rv,
                                            Some(out@[prev_out.len() as int]),
                                        ));
                                        assert(some_snapshot_of(index, candidates@[jj]@, out@));
                                    }
                                }
                            }
                        },
                        None => {
                            proof {
                                lemma_resolution_success(index, cur_rv, None);
                                assert(!ref_resolvable(index, candidates@[i as int]@));
                            }
                        },
                    }
                    i += 1;
                }
                proof {
                    assert forall|rv: crate::index::RefView|
                        method_candidate(index.spec_tables(), kind, gname, rv) && ref_resolvable(
                            index,
                            rv,
                        ) implies some_snapshot_of(index, rv, out@) by {
                        assert(among_views(rv, candidates@)) by {
                            if index.spec_tables().methods(kind).contains_key(gname)
                                && index.spec_tables().methods(kind)[gname].contains(rv) {
                                assert(among_views(rv, candidates@));
                            } else {
                                assert(crate::code_completion::CodeCompletion::offers_properties(
                                    kind,
                                ) && index.spec_tables().properties.contains_key(gname)
                                    && index.spec_tables().properties[gname].contains(rv));
                                assert(among_views(rv, candidates@));
                            }
                        }
                        let jj = choose|j: int|
                            0 <= j < candidates@.len() && candidates@[j]@ == rv;
                        assert(!ref_resolvable(index, candidates@[jj]@) || some_snapshot_of(
                            index,
                            candidates@[jj]@,
                            out@,
                        ));
                        assert(candidates@[jj]@ == rv);
                    }
                }
                out
            },
        }
    }

    /// Infer the receiver class of the call at the position.  An absent
    /// receiver, or the literal `self`, means the enclosing definition:
    /// a class itself, or the class an object extends.
    pub fn resolve_call_receiver<'a>(
        doc: &DataFlexDocument,
        index: &'a Index,
        position: Point,
    ) -> (r: Option<&'a ClassSymbol>)
        requires
            doc.wf(),
            index.wf(),
        ensures
            doc.tree is None ==> r is None,
            doc.tree matches Some(t) ==> match spec_receiver_class_name(t.nodes@, position) {
                None => r is None,
                Some(nb) => spec_class_lookup(index, crate::text::decoded_of(nb), r),
            },
    {
        let tree = match &doc.tree {
            Some(t) => t,
            None => {
                return None;
            },
        };
        let ghost nodes = tree.nodes@;
        let mut cursor = DataFlexTreeCursor::new(tree);
        if cursor.goto_first_leaf_node_for_point(position) {
            cursor.goto_enclosing_method_call();
        }
        let ghost call = cursor.spec_pos();
        proof {
            assert(call == spec_call_node(nodes, position));
        }

        let is_self = match cursor.child_index_by_field(FieldName::Receiver) {
            Some(receiver_idx) => {
                let mut probe = DataFlexTreeCursor::new(tree);
                probe.goto_index(receiver_idx);
                let e = bytes_eq_ignore_case(probe.text().as_slice(), "self".as_bytes());
                proof {
                    assert(spec_child_by_field(nodes, call, FieldName::Receiver, call + 1) == Some(
                        receiver_idx as int,
                    ));
                    assert(e == crate::text::eq_ignore_case(
                        nodes[receiver_idx as int].text@,
                        "self".spec_bytes(),
                    ));
                }
                e
            },
            None => true,
        };
        proof {
            assert(is_self == spec_receiver_is_self(nodes, call));
        }
        if !is_self {
            // A receiver other than `self` is not resolved to a class.
            return None;
        }

        if !cursor.goto_enclosing_object_or_class() {
            return None;
        }
        let ghost def = cursor.spec_pos();
        let header_field = if cursor.is_object_definition() {
            // The object's declared superclass carries the members.
            NodeKind::ObjectHeader
        } else {
            NodeKind::ClassHeader
        };
        let def_idx = cursor.position_index();
        let mut header = DataFlexTreeCursor::new(tree);
        header.goto_index(def_idx);
        if !header.goto_first_child() {
            return None;
        }
        proof {
            assert(Some(header.spec_pos()) == spec_child_from(nodes, def, def + 1));
        }
        if !matches!(header.kind(), NodeKind::ObjectHeader) && !matches!(
            header.kind(),
            NodeKind::ClassHeader,
        ) {
            return None;
        }
        let class_name = if matches!(header_field, NodeKind::ObjectHeader) {
            match Self::header_superclass_name(&header) {
                Some(n) => n,
                None => {
                    return None;
                },
            }
        } else {
            match header.child_index_by_field(FieldName::Name) {
                Some(name_idx) => {
                    let mut probe = DataFlexTreeCursor::new(tree);
                    probe.goto_index(name_idx);
                    SymbolName::from_bytes(probe.text().as_slice())
                },
                None => {
                    return None;
                },
            }
        };
        proof {
            assert(spec_receiver_class_name(nodes, position) matches Some(nb) && class_name@
                == crate::text::decoded_of(nb));
        }
        match index.find_class(&class_name) {
            Some(snapshot) => Some(snapshot.symbol),
            None => None,
        }
    }

    /// The superclass name spelled in a header: its last fieldless
    /// identifier child.
    fn header_superclass_name(header: &DataFlexTreeCursor<'_>) -> (r: Option<SymbolName>)
        requires
            header.wf(),
        ensures
            match crate::index::indexer::last_superclass_child(
                header.tree.nodes@,
                header.spec_pos(),
                header.tree.nodes@.len() as int,
            ) {
                Some(sup) => r matches Some(nm) && nm@ == crate::text::decoded_of(
                    header.tree.nodes@[sup].text@,
                ),
                None => r is None,
            },
    {
        let tree = header.tree;
        let i = header.pos;
        let n = tree.nodes.len();
        let mut found: Option<usize> = None;
        let mut j: usize = i + 1;
        proof {
            crate::index::indexer::lemma_no_superclass_below(tree.nodes@, i as int, i as int + 1);
        }
        while j < n
            invariant
                header.wf(),
                n == tree.nodes@.len(),
                i == header.pos,
                i < j <= n,
                match found {
                    Some(c) => c < tree.nodes@.len()
                        && crate::index::indexer::last_superclass_child(
                        tree.nodes@,
                        i as int,
                        j as int,
                    ) == Some(c as int),
                    None => crate::index::indexer::last_superclass_child(
                        tree.nodes@,
                        i as int,
                        j as int,
                    ) is None,
                },
            decreases n - j,
        {
            if tree.nodes[j].parent == i && matches!(tree.nodes[j].kind, NodeKind::Identifier)
                && matches!(tree.nodes[j].field, FieldName::NoField) {
                found = Some(j);
            }
            j += 1;
        }
        match found {
            Some(idx) => Some(SymbolName::from_bytes(tree.nodes[idx].text.as_slice())),
            None => None,
        }
    }
}

} // verus!
