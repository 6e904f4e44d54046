//! Classify the editing context at a position: the class slot of an
//! object header, or the name slot of a send, get or set call.

use vstd::prelude::*;

use crate::dataflex_document::DataFlexDocument;
use crate::index::MethodKind;
use crate::point::Point;
use crate::syntax_tree::{NodeKind, SyntaxNode, SyntaxTree};
use crate::text::{bytes_eq_ignore_case, eq_ignore_case};
use crate::tree_cursor::{spec_leaf_for_point, spec_next_node, DataFlexTreeCursor};
use vstd::string::StringSliceAdditionalSpecFns;

verus! {

/// What the position is part of.
#[derive(Debug, PartialEq, Eq, Structural)]
pub enum DocumentContext {
    ClassReference,
    MethodReference(MethodKind),
}

/// The classification after `Object <name> is a`: the superclass slot.
/// From the head keyword, an identifier, `is` and `a` must all end
/// strictly before the position; then the position must lie on the next
/// identifier, before whatever follows, or at the open end.
pub open spec fn spec_context_object(nodes: Seq<SyntaxNode>, leaf: int, position: Point) -> Option<
    DocumentContext,
> {
    match DataFlexTreeCursor::spec_step_identifier_before(nodes, leaf, position) {
        None => None,
        Some(c1) => match DataFlexTreeCursor::spec_step_keyword_before(
            nodes,
            c1,
            "is".spec_bytes(),
            position,
        ) {
            None => None,
            Some(c2) => match DataFlexTreeCursor::spec_step_keyword_before(
                nodes,
                c2,
                "a".spec_bytes(),
                position,
            ) {
                None => None,
                Some(c3) => match DataFlexTreeCursor::spec_step_identifier_enclosing(
                    nodes,
                    c3,
                    position,
                ) {
                    Some(_) => Some(DocumentContext::ClassReference),
                    None => match spec_next_node(nodes, c3) {
                        Some(nx) => if position.spec_lt(nodes[nx].start) {
                            Some(DocumentContext::ClassReference)
                        } else {
                            None
                        },
                        None => Some(DocumentContext::ClassReference),
                    },
                },
            },
        },
    }
}

/// The classification after `Send`, `Get` or `Set`: the name slot.  The
/// position must lie strictly past the keyword, then on the next
/// identifier, before whatever follows, or at the open end.
pub open spec fn spec_context_call(
    nodes: Seq<SyntaxNode>,
    leaf: int,
    position: Point,
    kind: MethodKind,
) -> Option<DocumentContext> {
    if position.spec_le(nodes[leaf].end) {
        None
    } else {
        match DataFlexTreeCursor::spec_step_identifier_enclosing(nodes, leaf, position) {
            Some(_) => Some(DocumentContext::MethodReference(kind)),
            None => match spec_next_node(nodes, leaf) {
                Some(nx) => if position.spec_lt(nodes[nx].start) {
                    Some(DocumentContext::MethodReference(kind))
                } else {
                    None
                },
                None => Some(DocumentContext::MethodReference(kind)),
            },
        }
    }
}

/// The classification at a position: descend from the start of its line
/// to the leaf there; a head keyword `object`, `send`, `get` or `set`
/// opens a class or method slot, anything else classifies as nothing.
pub open spec fn spec_context(nodes: Seq<SyntaxNode>, position: Point) -> Option<DocumentContext> {
    let leaf = spec_leaf_for_point(nodes, 0, Point { row: position.row, column: 0 });
    if !(nodes[leaf].kind == NodeKind::Keyword) {
        None
    } else if eq_ignore_case(nodes[leaf].text@, "object".spec_bytes()) {
        spec_context_object(nodes, leaf, position)
    } else if eq_ignore_case(nodes[leaf].text@, "send".spec_bytes()) {
        spec_context_call(nodes, leaf, position, MethodKind::Procedure)
    } else if eq_ignore_case(nodes[leaf].text@, "get".spec_bytes()) {
        spec_context_call(nodes, leaf, position, MethodKind::Function)
    } else if eq_ignore_case(nodes[leaf].text@, "set".spec_bytes()) {
        spec_context_call(nodes, leaf, position, MethodKind::Setter)
    } else {
        None
    }
}

impl DocumentContext {
    /// Classify the context at `position`: find the leaf at the start of
    /// the line and dispatch on its head keyword.
    pub fn context(doc: &DataFlexDocument, position: Point) -> (r: Option<DocumentContext>)
        requires
            doc.wf(),
        ensures
            doc.tree is None ==> r is None,
            doc.tree matches Some(t) ==> r == spec_context(t.nodes@, position),
    {
        let tree = match &doc.tree {
            Some(t) => t,
            None => {
                return None;
            },
        };
        context_in_tree(tree, position)
    }
}

/// Classify the context at `position` inside a tree.
pub fn context_in_tree(tree: &SyntaxTree, position: Point) -> (r: Option<DocumentContext>)
    requires
        tree.wf(),
    ensures
        r == spec_context(tree.nodes@, position),
{
    let start_of_line = Point { row: position.row, column: 0 };
    let mut cursor = DataFlexTreeCursor::new(tree);
    cursor.goto_first_leaf_node_for_point(start_of_line);
    proof {
        assert(cursor.spec_pos() == spec_leaf_for_point(tree.nodes@, 0, start_of_line));
    }

    if !matches!(cursor.kind(), NodeKind::Keyword) {
        return None;
    }
    let text = cursor.text();
    if bytes_eq_ignore_case(text.as_slice(), "object".as_bytes()) {
        context_for_object(cursor, position)
    } else if bytes_eq_ignore_case(text.as_slice(), "send".as_bytes()) {
        context_for_call(cursor, position, MethodKind::Procedure)
    } else if bytes_eq_ignore_case(text.as_slice(), "get".as_bytes()) {
        context_for_call(cursor, position, MethodKind::Function)
    } else if bytes_eq_ignore_case(text.as_slice(), "set".as_bytes()) {
        context_for_call(cursor, position, MethodKind::Setter)
    } else {
        None
    }
}

/// After `Object <name> is a`, the position is in the class slot when it
/// is on the superclass identifier, before whatever follows, or at the
/// open end of the header.
fn context_for_object(cursor: DataFlexTreeCursor<'_>, position: Point) -> (r: Option<
    DocumentContext,
>)
    requires
        cursor.wf(),
    ensures
        r == spec_context_object(cursor.tree.nodes@, cursor.spec_pos(), position),
{
    let mut cursor = cursor;
    if !cursor.goto_next_identifier_before_position(&position) {
        return None;
    }
    if !cursor.goto_next_keyword_before_position("is".as_bytes(), &position) {
        return None;
    }
    if !cursor.goto_next_keyword_before_position("a".as_bytes(), &position) {
        return None;
    }
    if cursor.goto_next_identifier_enclosing_position(&position) {
        Some(DocumentContext::ClassReference)
    } else if cursor.goto_next_node() {
        if position.lt(&cursor.start_position()) {
            Some(DocumentContext::ClassReference)
        } else {
            None
        }
    } else {
        Some(DocumentContext::ClassReference)
    }
}

/// After `Send`, `Get` or `Set`, the position is in the name slot when
/// it is past the keyword and on the name identifier, before whatever
/// follows, or at the open end of the line.
fn context_for_call(cursor: DataFlexTreeCursor<'_>, position: Point, kind: MethodKind) -> (r:
    Option<DocumentContext>)
    requires
        cursor.wf(),
    ensures
        r == spec_context_call(cursor.tree.nodes@, cursor.spec_pos(), position, kind),
{
    if position.le(&cursor.end_position()) {
        return None;
    }
    let mut cursor = cursor;
    if cursor.goto_next_identifier_enclosing_position(&position) {
        Some(DocumentContext::MethodReference(kind))
    } else if cursor.goto_next_node() {
        if position.lt(&cursor.start_position()) {
            Some(DocumentContext::MethodReference(kind))
        } else {
            None
        }
    } else {
        Some(DocumentContext::MethodReference(kind))
    }
}

} // verus!
