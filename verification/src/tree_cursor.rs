//! Cursor navigation over a syntax tree: descend to the leaf at a point,
//! step to the next node in source order, climb to enclosing constructs.
//! Every failed search leaves the cursor where it started.

use vstd::prelude::*;

use crate::point::Point;
use crate::syntax_tree::{FieldName, NodeKind, SyntaxNode, SyntaxTree};
use crate::text::bytes_eq_ignore_case;

verus! {

/// The first child of `pos` at or after `j` whose end lies past `p`.
pub open spec fn spec_first_child_for_point(
    nodes: Seq<SyntaxNode>,
    pos: int,
    p: Point,
    j: int,
) -> Option<int>
    decreases nodes.len() - j,
{
    if j < 0 || j >= nodes.len() {
        None
    } else if nodes[j].parent == pos && p.spec_lt(nodes[j].end) {
        Some(j)
    } else {
        spec_first_child_for_point(nodes, pos, p, j + 1)
    }
}

/// The deepest node reached from `pos` by repeatedly taking the first
/// child past `p`.
pub open spec fn spec_leaf_for_point(nodes: Seq<SyntaxNode>, pos: int, p: Point) -> int
    decreases nodes.len() - pos,
{
    match spec_first_child_for_point(nodes, pos, p, pos + 1) {
        None => pos,
        Some(c) => if pos < c < nodes.len() {
            spec_leaf_for_point(nodes, c, p)
        } else {
            pos
        },
    }
}

/// The next node with the same parent: the root has none.
pub open spec fn spec_next_sibling(nodes: Seq<SyntaxNode>, pos: int) -> Option<int> {
    if pos == 0 {
        None
    } else {
        spec_sibling_from(nodes, pos, pos + 1)
    }
}

pub open spec fn spec_sibling_from(nodes: Seq<SyntaxNode>, pos: int, j: int) -> Option<int>
    decreases nodes.len() - j,
{
    if j < 0 || j >= nodes.len() || pos < 0 || pos >= nodes.len() {
        None
    } else if nodes[j].parent == nodes[pos].parent {
        Some(j)
    } else {
        spec_sibling_from(nodes, pos, j + 1)
    }
}

/// The next node in source order: the next sibling, or the nearest
/// ancestor's next sibling.
pub open spec fn spec_next_node(nodes: Seq<SyntaxNode>, pos: int) -> Option<int>
    decreases pos,
{
    match spec_next_sibling(nodes, pos) {
        Some(s) => Some(s),
        None => if pos <= 0 || pos >= nodes.len() {
            None
        } else if 0 <= nodes[pos].parent < pos {
            spec_next_node(nodes, nodes[pos].parent as int)
        } else {
            None
        },
    }
}

/// The first child of `pos` at or after `j`.
pub open spec fn spec_child_from(nodes: Seq<SyntaxNode>, pos: int, j: int) -> Option<int>
    decreases nodes.len() - j,
{
    if j < 0 || j >= nodes.len() {
        None
    } else if j > pos && nodes[j].parent == pos {
        Some(j)
    } else {
        spec_child_from(nodes, pos, j + 1)
    }
}

/// The first child of `pos` carrying `field`, at or after `j`.
pub open spec fn spec_child_by_field(
    nodes: Seq<SyntaxNode>,
    pos: int,
    field: FieldName,
    j: int,
) -> Option<int>
    decreases nodes.len() - j,
{
    if j < 0 || j >= nodes.len() {
        None
    } else if j > pos && nodes[j].parent == pos && nodes[j].field == field {
        Some(j)
    } else {
        spec_child_by_field(nodes, pos, field, j + 1)
    }
}

/// Whether a node is a send, get or set statement.
pub open spec fn spec_is_call_statement(n: SyntaxNode) -> bool {
    n.kind == NodeKind::SendStatement || n.kind == NodeKind::GetStatement || n.kind
        == NodeKind::SetStatement
}

/// Whether a node is an object or class definition.
pub open spec fn spec_is_definition(n: SyntaxNode) -> bool {
    n.kind == NodeKind::ObjectDefinition || n.kind == NodeKind::ClassDefinition
}

/// The nearest proper ancestor of `pos` that is a send, get or set
/// statement.
pub open spec fn spec_enclosing_method_call(nodes: Seq<SyntaxNode>, pos: int) -> Option<int>
    decreases pos,
{
    if pos <= 0 || pos >= nodes.len() {
        None
    } else {
        let p = nodes[pos].parent as int;
        if !(0 <= p < pos) {
            None
        } else if spec_is_call_statement(nodes[p]) {
            Some(p)
        } else {
            spec_enclosing_method_call(nodes, p)
        }
    }
}

/// The nearest proper ancestor of `pos` that is an object or class
/// definition.
pub open spec fn spec_enclosing_object_or_class(nodes: Seq<SyntaxNode>, pos: int) -> Option<int>
    decreases pos,
{
    if pos <= 0 || pos >= nodes.len() {
        None
    } else {
        let p = nodes[pos].parent as int;
        if !(0 <= p < pos) {
            None
        } else if spec_is_definition(nodes[p]) {
            Some(p)
        } else {
            spec_enclosing_object_or_class(nodes, p)
        }
    }
}

/// A position inside a syntax tree.
pub struct DataFlexTreeCursor<'a> {
    pub tree: &'a SyntaxTree,
    pub pos: usize,
}

impl<'a> DataFlexTreeCursor<'a> {
    /// The cursor points at a node of a well-formed tree.
    pub open spec fn wf(&self) -> bool {
        &&& self.tree.wf()
        &&& self.pos < self.tree.nodes@.len()
    }

    pub open spec fn spec_pos(&self) -> int {
        self.pos as int
    }

    pub open spec fn spec_node(&self) -> SyntaxNode {
        self.tree.nodes@[self.pos as int]
    }

    /// A cursor at the root of a tree.
    pub fn new(tree: &'a SyntaxTree) -> (r: DataFlexTreeCursor<'a>)
        requires
            tree.wf(),
        ensures
            r.wf(),
            r.spec_pos() == 0,
            r.tree == tree,
    {
        DataFlexTreeCursor { tree, pos: 0 }
    }

    /// The kind of the current node.
    pub fn kind(&self) -> (r: NodeKind)
        requires
            self.wf(),
        ensures
            r == self.spec_node().kind,
    {
        self.tree.nodes[self.pos].kind
    }

    /// The text of the current node (leaf tokens only carry text).
    pub fn text(&self) -> (r: &Vec<u8>)
        requires
            self.wf(),
        ensures
            r@ == self.spec_node().text@,
    {
        &self.tree.nodes[self.pos].text
    }

    /// The start position of the current node.
    pub fn start_position(&self) -> (r: Point)
        requires
            self.wf(),
        ensures
            r == self.spec_node().start,
    {
        self.tree.nodes[self.pos].start
    }

    /// The end position of the current node.
    pub fn end_position(&self) -> (r: Point)
        requires
            self.wf(),
        ensures
            r == self.spec_node().end,
    {
        self.tree.nodes[self.pos].end
    }

    /// The index of the current node.
    pub fn position_index(&self) -> (r: usize)
        requires
            self.wf(),
        ensures
            r == self.spec_pos(),
    {
        self.pos
    }

    /// Move to the parent node; at the root, stay and report failure.
    pub fn goto_parent(&mut self) -> (r: bool)
        requires
            old(self).wf(),
        ensures
            final(self).wf(),
            final(self).tree == old(self).tree,
            r ==> final(self).spec_pos() < old(self).spec_pos() && final(self).spec_pos()
                == old(self).spec_node().parent,
            !r ==> *final(self) == *old(self) && old(self).spec_pos() == 0,
    {
        if self.pos == 0 {
            false
        } else {
            self.pos = self.tree.nodes[self.pos].parent;
            true
        }
    }

    /// Move to the first child lying at or beyond `point` (the first
    /// child whose end is past it).
    pub fn goto_first_child_for_point(&mut self, point: Point) -> (r: bool)
        requires
            old(self).wf(),
        ensures
            final(self).wf(),
            final(self).tree == old(self).tree,
            match spec_first_child_for_point(
                old(self).tree.nodes@,
                old(self).spec_pos(),
                point,
                old(self).spec_pos() + 1,
            ) {
                Some(c) => r && final(self).spec_pos() == c,
                None => !r && *final(self) == *old(self),
            },
            r ==> final(self).spec_pos() > old(self).spec_pos() && final(self).spec_node().parent
                == old(self).spec_pos() && point.spec_lt(final(self).spec_node().end),
    {
        let ghost nodes = self.tree.nodes@;
        let n = self.tree.nodes.len();
        let mut j: usize = self.pos + 1;
        while j < n
            invariant
                self.wf(),
                *self == *old(self),
                nodes == self.tree.nodes@,
                n == self.tree.nodes@.len(),
                self.pos < j <= n,
                spec_first_child_for_point(nodes, self.pos as int, point, self.pos as int + 1)
                    == spec_first_child_for_point(nodes, self.pos as int, point, j as int),
            decreases n - j,
        {
            if self.tree.nodes[j].parent == self.pos && point.lt(&self.tree.nodes[j].end) {
                proof {
                    assert(spec_first_child_for_point(nodes, self.pos as int, point, j as int)
                        == Some(j as int));
                }
                self.pos = j;
                return true;
            }
            proof {
                assert(spec_first_child_for_point(nodes, self.pos as int, point, j as int)
                    == spec_first_child_for_point(nodes, self.pos as int, point, j as int + 1));
            }
            j += 1;
        }
        proof {
            assert(spec_first_child_for_point(nodes, self.pos as int, point, n as int) is None);
        }
        false
    }

    /// Descend to the deepest node at `point`: repeatedly take the first
    /// child past the point until none exists.
    pub fn goto_first_leaf_node_for_point(&mut self, point: Point) -> (r: bool)
        requires
            old(self).wf(),
        ensures
            final(self).wf(),
            final(self).tree == old(self).tree,
            !r ==> *final(self) == *old(self) && spec_first_child_for_point(
                old(self).tree.nodes@,
                old(self).spec_pos(),
                point,
                old(self).spec_pos() + 1,
            ) is None,
            r ==> final(self).spec_pos() == spec_leaf_for_point(
                old(self).tree.nodes@,
                old(self).spec_pos(),
                point,
            ),
    {
        let ghost nodes = self.tree.nodes@;
        let ghost start = self.spec_pos();
        if !self.goto_first_child_for_point(point) {
            return false;
        }
        proof {
            assert(spec_leaf_for_point(nodes, start, point) == spec_leaf_for_point(
                nodes,
                self.spec_pos(),
                point,
            ));
        }
        loop
            invariant
                self.wf(),
                self.tree == old(self).tree,
                nodes == self.tree.nodes@,
                spec_leaf_for_point(nodes, start, point) == spec_leaf_for_point(
                    nodes,
                    self.spec_pos(),
                    point,
                ),
            ensures
                self.wf(),
                self.tree == old(self).tree,
                nodes == self.tree.nodes@,
                self.spec_pos() == spec_leaf_for_point(nodes, start, point),
            decreases self.tree.nodes@.len() - self.spec_pos(),
        {
            let ghost before = self.spec_pos();
            if !self.goto_first_child_for_point(point) {
                proof {
                    assert(spec_leaf_for_point(nodes, before, point) == before);
                }
                break ;
            }
            proof {
                assert(spec_leaf_for_point(nodes, before, point) == spec_leaf_for_point(
                    nodes,
                    self.spec_pos(),
                    point,
                ));
            }
        }
        proof {
            assert(nodes == old(self).tree.nodes@);
            assert(start == old(self).spec_pos());
            assert(self.spec_pos() == spec_leaf_for_point(nodes, start, point));
        }
        true
    }

    /// Move to the next node with the same parent, in source order.
    fn goto_next_sibling(&mut self) -> (r: bool)
        requires
            old(self).wf(),
        ensures
            final(self).wf(),
            final(self).tree == old(self).tree,
            match spec_next_sibling(old(self).tree.nodes@, old(self).spec_pos()) {
                Some(sib) => r && final(self).spec_pos() == sib,
                None => !r && *final(self) == *old(self),
            },
            r ==> final(self).spec_pos() > old(self).spec_pos(),
    {
        let ghost nodes = self.tree.nodes@;
        if self.pos == 0 {
            return false;
        }
        let n = self.tree.nodes.len();
        let parent = self.tree.nodes[self.pos].parent;
        let mut j: usize = self.pos + 1;
        while j < n
            invariant
                self.wf(),
                *self == *old(self),
                nodes == self.tree.nodes@,
                0 < self.pos < nodes.len(),
                parent == nodes[self.pos as int].parent,
                n == self.tree.nodes@.len(),
                self.pos < j <= n,
                spec_sibling_from(nodes, self.pos as int, self.pos as int + 1)
                    == spec_sibling_from(nodes, self.pos as int, j as int),
            decreases n - j,
        {
            if self.tree.nodes[j].parent == parent {
                proof {
                    assert(spec_sibling_from(nodes, self.pos as int, j as int) == Some(j as int));
                }
                self.pos = j;
                return true;
            }
            proof {
                assert(spec_sibling_from(nodes, self.pos as int, j as int) == spec_sibling_from(
                    nodes,
                    self.pos as int,
                    j as int + 1,
                ));
            }
            j += 1;
        }
        proof {
            assert(spec_sibling_from(nodes, self.pos as int, n as int) is None);
        }
        false
    }

    /// Move to the next node in source order: a sibling, or the nearest
    /// ancestor's next sibling.  On failure the cursor is unchanged.
    pub fn goto_next_node(&mut self) -> (r: bool)
        requires
            old(self).wf(),
        ensures
            final(self).wf(),
            final(self).tree == old(self).tree,
            match spec_next_node(old(self).tree.nodes@, old(self).spec_pos()) {
                Some(nx) => r && final(self).spec_pos() == nx,
                None => !r && *final(self) == *old(self),
            },
    {
        let ghost nodes = self.tree.nodes@;
        let ghost start = self.spec_pos();
        if self.goto_next_sibling() {
            return true;
        }
        let saved = self.pos;
        loop
            invariant
                self.wf(),
                self.tree == old(self).tree,
                nodes == self.tree.nodes@,
                nodes == old(self).tree.nodes@,
                start == old(self).spec_pos(),
                saved < self.tree.nodes@.len(),
                spec_next_node(nodes, start) == spec_next_node(nodes, self.spec_pos()),
                spec_next_sibling(nodes, self.spec_pos()) is None,
            ensures
                self.wf(),
                self.tree == old(self).tree,
                nodes == self.tree.nodes@,
                saved < self.tree.nodes@.len(),
                spec_next_node(nodes, start) is None,
            decreases self.spec_pos(),
        {
            let ghost at = self.spec_pos();
            if !self.goto_parent() {
                proof {
                    assert(spec_next_node(nodes, at) is None);
                }
                break ;
            }
            proof {
                assert(self.spec_pos() == nodes[at].parent);
                assert(spec_next_node(nodes, at) == spec_next_node(nodes, self.spec_pos()));
            }
            let ghost up = self.spec_pos();
            if self.goto_next_sibling() {
                proof {
                    assert(spec_next_node(nodes, up) == spec_next_sibling(nodes, up));
                    assert(spec_next_node(nodes, start) == Some(self.spec_pos()));
                }
                return true;
            }
        }
        self.pos = saved;
        false
    }



    /// Whether the next node is an identifier ending before `position`.
    pub open spec fn spec_step_identifier_before(
        nodes: Seq<SyntaxNode>,
        pos: int,
        position: Point,
    ) -> Option<int> {
        match spec_next_node(nodes, pos) {
            Some(c) => if nodes[c].kind == NodeKind::Identifier && nodes[c].end.spec_lt(position) {
                Some(c)
            } else {
                None
            },
            None => None,
        }
    }

    /// Whether the next node is the given keyword ending before
    /// `position`.
    pub open spec fn spec_step_keyword_before(
        nodes: Seq<SyntaxNode>,
        pos: int,
        keyword: Seq<u8>,
        position: Point,
    ) -> Option<int> {
        match spec_next_node(nodes, pos) {
            Some(c) => if nodes[c].kind == NodeKind::Keyword && nodes[c].end.spec_lt(position)
                && crate::text::eq_ignore_case(nodes[c].text@, keyword) {
                Some(c)
            } else {
                None
            },
            None => None,
        }
    }

    /// Whether the next node is an identifier enclosing `position`.
    pub open spec fn spec_step_identifier_enclosing(
        nodes: Seq<SyntaxNode>,
        pos: int,
        position: Point,
    ) -> Option<int> {
        match spec_next_node(nodes, pos) {
            Some(c) => if nodes[c].kind == NodeKind::Identifier && nodes[c].start.spec_le(position)
                && position.spec_le(nodes[c].end) {
                Some(c)
            } else {
                None
            },
            None => None,
        }
    }

    /// Step to the next node only when it is an identifier ending before
    /// `position`; otherwise stay.
    pub fn goto_next_identifier_before_position(&mut self, position: &Point) -> (r: bool)
        requires
            old(self).wf(),
        ensures
            final(self).wf(),
            final(self).tree == old(self).tree,
            match Self::spec_step_identifier_before(
                old(self).tree.nodes@,
                old(self).spec_pos(),
                *position,
            ) {
                Some(c) => r && final(self).spec_pos() == c,
                None => !r && *final(self) == *old(self),
            },
            r ==> final(self).spec_node().kind == NodeKind::Identifier && final(self).spec_node().end.spec_lt(*position),
    {
        let saved = self.pos;
        if self.goto_next_node() {
            let ok = matches!(self.kind(), NodeKind::Identifier) && self.end_position().lt(
                position,
            );
            if ok {
                return true;
            }
        }
        self.pos = saved;
        false
    }

    /// Step to the next node only when it is the given keyword (ASCII
    /// case-insensitive) ending before `position`; otherwise stay.
    pub fn goto_next_keyword_before_position(&mut self, keyword: &[u8], position: &Point) -> (r:
        bool)
        requires
            old(self).wf(),
        ensures
            final(self).wf(),
            final(self).tree == old(self).tree,
            match Self::spec_step_keyword_before(
                old(self).tree.nodes@,
                old(self).spec_pos(),
                keyword@,
                *position,
            ) {
                Some(c) => r && final(self).spec_pos() == c,
                None => !r && *final(self) == *old(self),
            },
            r ==> final(self).spec_node().kind == NodeKind::Keyword && final(self).spec_node().end.spec_lt(*position),
    {
        let saved = self.pos;
        if self.goto_next_node() {
            let ok = matches!(self.kind(), NodeKind::Keyword) && self.end_position().lt(position)
                && bytes_eq_ignore_case(self.text().as_slice(), keyword);
            if ok {
                return true;
            }
        }
        self.pos = saved;
        false
    }

    /// Step to the next node only when it is an identifier whose range
    /// encloses `position`; otherwise stay.
    pub fn goto_next_identifier_enclosing_position(&mut self, position: &Point) -> (r: bool)
        requires
            old(self).wf(),
        ensures
            final(self).wf(),
            final(self).tree == old(self).tree,
            match Self::spec_step_identifier_enclosing(
                old(self).tree.nodes@,
                old(self).spec_pos(),
                *position,
            ) {
                Some(c) => r && final(self).spec_pos() == c,
                None => !r && *final(self) == *old(self),
            },
            r ==> final(self).spec_node().kind == NodeKind::Identifier && final(self).spec_node().start.spec_le(*position) && position.spec_le(
                final(self).spec_node().end,
            ),
    {
        let saved = self.pos;
        if self.goto_next_node() {
            let ok = matches!(self.kind(), NodeKind::Identifier) && self.start_position().le(
                position,
            ) && position.le(&self.end_position());
            if ok {
                return true;
            }
        }
        self.pos = saved;
        false
    }

    /// Climb to the nearest enclosing send, get or set statement.
    pub fn goto_enclosing_method_call(&mut self) -> (r: bool)
        requires
            old(self).wf(),
        ensures
            final(self).wf(),
            final(self).tree == old(self).tree,
            match spec_enclosing_method_call(old(self).tree.nodes@, old(self).spec_pos()) {
                Some(a) => r && final(self).spec_pos() == a,
                None => !r && *final(self) == *old(self),
            },
            r ==> spec_is_call_statement(final(self).spec_node()),
    {
        let ghost nodes = self.tree.nodes@;
        let ghost start = self.spec_pos();
        let saved = self.pos;
        loop
            invariant
                self.wf(),
                self.tree == old(self).tree,
                nodes == self.tree.nodes@,
                start == old(self).spec_pos(),
                saved == old(self).pos,
                spec_enclosing_method_call(nodes, start) == spec_enclosing_method_call(
                    nodes,
                    self.spec_pos(),
                ),
            ensures
                spec_enclosing_method_call(nodes, start) is None,
            decreases self.spec_pos(),
        {
            let ghost cur = self.spec_pos();
            if !self.goto_parent() {
                proof {
                    assert(spec_enclosing_method_call(nodes, cur) is None);
                }
                break ;
            }
            let k = self.kind();
            if matches!(k, NodeKind::SendStatement) || matches!(k, NodeKind::GetStatement)
                || matches!(k, NodeKind::SetStatement) {
                proof {
                    assert(spec_enclosing_method_call(nodes, cur) == Some(self.spec_pos()));
                }
                return true;
            }
            proof {
                assert(spec_enclosing_method_call(nodes, cur) == spec_enclosing_method_call(
                    nodes,
                    self.spec_pos(),
                ));
            }
        }
        self.pos = saved;
        false
    }

    /// Climb to the nearest enclosing object or class definition.
    pub fn goto_enclosing_object_or_class(&mut self) -> (r: bool)
        requires
            old(self).wf(),
        ensures
            final(self).wf(),
            final(self).tree == old(self).tree,
            match spec_enclosing_object_or_class(old(self).tree.nodes@, old(self).spec_pos()) {
                Some(a) => r && final(self).spec_pos() == a,
                None => !r && *final(self) == *old(self),
            },
            r ==> spec_is_definition(final(self).spec_node()),
    {
        let ghost nodes = self.tree.nodes@;
        let ghost start = self.spec_pos();
        let saved = self.pos;
        loop
            invariant
                self.wf(),
                self.tree == old(self).tree,
                nodes == self.tree.nodes@,
                start == old(self).spec_pos(),
                saved == old(self).pos,
                spec_enclosing_object_or_class(nodes, start) == spec_enclosing_object_or_class(
                    nodes,
                    self.spec_pos(),
                ),
            ensures
                spec_enclosing_object_or_class(nodes, start) is None,
            decreases self.spec_pos(),
        {
            let ghost cur = self.spec_pos();
            if !self.goto_parent() {
                proof {
                    assert(spec_enclosing_object_or_class(nodes, cur) is None);
                }
                break ;
            }
            let k = self.kind();
            if matches!(k, NodeKind::ObjectDefinition) || matches!(k, NodeKind::ClassDefinition) {
                proof {
                    assert(spec_enclosing_object_or_class(nodes, cur) == Some(self.spec_pos()));
                }
                return true;
            }
            proof {
                assert(spec_enclosing_object_or_class(nodes, cur)
                    == spec_enclosing_object_or_class(nodes, self.spec_pos()));
            }
        }
        self.pos = saved;
        false
    }

    /// Whether the current node is an object definition.
    pub fn is_object_definition(&self) -> (r: bool)
        requires
            self.wf(),
        ensures
            r == (self.spec_node().kind == NodeKind::ObjectDefinition),
    {
        matches!(self.kind(), NodeKind::ObjectDefinition)
    }

    /// Move to the first child of the current node, if any.
    pub fn goto_first_child(&mut self) -> (r: bool)
        requires
            old(self).wf(),
        ensures
            final(self).wf(),
            final(self).tree == old(self).tree,
            match spec_child_from(
                old(self).tree.nodes@,
                old(self).spec_pos(),
                old(self).spec_pos() + 1,
            ) {
                Some(c) => r && final(self).spec_pos() == c,
                None => !r && *final(self) == *old(self),
            },
            r ==> final(self).spec_node().parent == old(self).spec_pos() && final(self).spec_pos()
                > old(self).spec_pos(),
    {
        let ghost nodes = self.tree.nodes@;
        let ghost start = self.spec_pos();
        let n = self.tree.nodes.len();
        let mut j: usize = self.pos + 1;
        while j < n
            invariant
                self.wf(),
                *self == *old(self),
                n == self.tree.nodes@.len(),
                nodes == self.tree.nodes@,
                start == self.spec_pos(),
                self.pos < j <= n,
                spec_child_from(nodes, start, start + 1) == spec_child_from(nodes, start, j as int),
            decreases n - j,
        {
            if self.tree.nodes[j].parent == self.pos {
                proof {
                    assert(spec_child_from(nodes, start, j as int) == Some(j as int));
                }
                self.pos = j;
                return true;
            }
            proof {
                assert(spec_child_from(nodes, start, j as int) == spec_child_from(
                    nodes,
                    start,
                    j + 1,
                ));
            }
            j += 1;
        }
        proof {
            assert(spec_child_from(nodes, start, n as int) is None);
        }
        false
    }

    /// The index of the child of the current node that fills `field`, if
    /// any.
    pub fn child_index_by_field(&self, field: FieldName) -> (r: Option<usize>)
        requires
            self.wf(),
        ensures
            match spec_child_by_field(
                self.tree.nodes@,
                self.spec_pos(),
                field,
                self.spec_pos() + 1,
            ) {
                Some(c) => r matches Some(u) && u as int == c,
                None => r is None,
            },
            r matches Some(c) ==> c < self.tree.nodes@.len() && self.tree.nodes@[c as int].parent
                == self.spec_pos() && self.tree.nodes@[c as int].field == field,
    {
        let ghost nodes = self.tree.nodes@;
        let ghost start = self.spec_pos();
        let n = self.tree.nodes.len();
        let mut j: usize = self.pos + 1;
        while j < n
            invariant
                self.wf(),
                n == self.tree.nodes@.len(),
                nodes == self.tree.nodes@,
                start == self.spec_pos(),
                self.pos < j <= n,
                spec_child_by_field(nodes, start, field, start + 1) == spec_child_by_field(
                    nodes,
                    start,
                    field,
                    j as int,
                ),
            decreases n - j,
        {
            if self.tree.nodes[j].parent == self.pos && self.tree.nodes[j].field == field {
                proof {
                    assert(spec_child_by_field(nodes, start, field, j as int) == Some(j as int));
                }
                return Some(j);
            }
            proof {
                assert(spec_child_by_field(nodes, start, field, j as int) == spec_child_by_field(
                    nodes,
                    start,
                    field,
                    j + 1,
                ));
            }
            j += 1;
        }
        proof {
            assert(spec_child_by_field(nodes, start, field, n as int) is None);
        }
        None
    }

    /// Move the cursor to an arbitrary node index.
    pub fn goto_index(&mut self, i: usize)
        requires
            old(self).wf(),
            i < old(self).tree.nodes@.len(),
        ensures
            final(self).wf(),
            final(self).tree == old(self).tree,
            final(self).spec_pos() == i,
    {
        self.pos = i;
    }
}

} // verus!
