//! The semantic token map of a document: per line, the highlight tokens
//! in order, each position-encoded as a delta from the previous token.
//!
//! Keyword tokens are always emitted.  An inherited-class name is
//! emitted only when the index knows the class; a called method name
//! only when the index knows the method.  Tokens spanning several lines
//! are dropped.

use vstd::prelude::*;

use crate::index::{Index, SymbolName};
use crate::point::Point;
use crate::syntax_tree::{FieldName, NodeKind, SyntaxNode, SyntaxTree};

verus! {

/// One token inside a line: its column delta from the previous token on
/// the line (absolute for the first), its length, and its kind.
#[derive(Clone, Copy, Debug, PartialEq, Eq, Structural)]
pub struct SyntaxToken {
    pub delta_start: u32,
    pub length: u32,
    pub kind: u32,
}

/// The tokens of one line.
#[derive(Debug)]
pub struct TokenLine {
    pub tokens: Vec<SyntaxToken>,
}

/// A token as delivered to the editor: line and column deltas.
#[derive(Clone, Copy, Debug, PartialEq, Eq, Structural)]
pub struct SemanticToken {
    pub delta_line: u32,
    pub delta_start: u32,
    pub length: u32,
    pub token_type: u32,
    pub token_modifiers_bitset: u32,
}

/// The semantic token map: one entry per document line.
#[derive(Debug)]
pub struct SyntaxMap {
    lines: Vec<TokenLine>,
}

/// The readings of the per-line token stores.
pub open spec fn token_lines_view(ls: Seq<TokenLine>) -> Seq<Seq<SyntaxToken>> {
    Seq::new(ls.len(), |r: int| ls[r].tokens@)
}

/// Whether the identifier at `i` fills the superclass slot of an object
/// or class header: a fieldless identifier child of a header.
pub open spec fn spec_superclass_slot(nodes: Seq<SyntaxNode>, i: int) -> bool {
    &&& nodes[i].field == FieldName::NoField
    &&& (nodes[nodes[i].parent as int].kind == NodeKind::ObjectHeader || nodes[nodes[i].parent
        as int].kind == NodeKind::ClassHeader)
}

/// Whether the identifier at `i` names a send, get or set call.
pub open spec fn spec_called_method_name(nodes: Seq<SyntaxNode>, i: int) -> bool {
    &&& nodes[i].field == FieldName::Name
    &&& (nodes[nodes[i].parent as int].kind == NodeKind::SendStatement || nodes[nodes[i].parent
        as int].kind == NodeKind::GetStatement || nodes[nodes[i].parent as int].kind
        == NodeKind::SetStatement)
}

/// The token kind the node at `i` emits, if any: keywords always; a
/// superclass-slot identifier only when the index knows the class; a
/// call-name identifier only when the index knows a method of any kind.
/// Tokens spanning lines, on rows past the map, or too wide for the
/// encoding are dropped.
pub open spec fn spec_emitted_kind(
    nodes: Seq<SyntaxNode>,
    i: int,
    line_count: int,
    t: crate::index::TablesView,
) -> Option<u32> {
    let node = nodes[i];
    if !(node.start.row == node.end.row && (node.start.row as int) < line_count
        && node.start.column <= node.end.column && node.end.column <= u32::MAX
        && node.start.row <= u32::MAX) {
        None
    } else {
        match node.kind {
            NodeKind::Keyword => Some(TOKEN_KEYWORD),
            NodeKind::Identifier => if spec_superclass_slot(nodes, i) {
                if t.classes.contains_key(crate::text::decoded_of(node.text@)) {
                    Some(TOKEN_INHERITED_CLASS)
                } else {
                    None
                }
            } else if spec_called_method_name(nodes, i) {
                if t.procedures.contains_key(crate::text::decoded_of(node.text@))
                    || t.functions.contains_key(crate::text::decoded_of(node.text@))
                    || t.setters.contains_key(crate::text::decoded_of(node.text@)) {
                    Some(TOKEN_METHOD_NAME)
                } else {
                    None
                }
            } else {
                None
            },
            _ => None,
        }
    }
}

/// The per-line token stores and the last emitted position after the
/// nodes below `upto`: each emitted token lands on its start row with a
/// column delta from the previously emitted token on that row (absolute
/// after a row change).
pub open spec fn spec_token_lines(
    nodes: Seq<SyntaxNode>,
    upto: int,
    line_count: int,
    t: crate::index::TablesView,
) -> (Seq<Seq<SyntaxToken>>, Point)
    decreases upto,
{
    if upto <= 0 {
        (
            Seq::new(
                if line_count >= 0 {
                    line_count as nat
                } else {
                    0
                },
                |r: int| Seq::<SyntaxToken>::empty(),
            ),
            Point { row: 0, column: 0 },
        )
    } else {
        let prior = spec_token_lines(nodes, upto - 1, line_count, t);
        match spec_emitted_kind(nodes, upto - 1, line_count, t) {
            Some(kind) => {
                let node = nodes[upto - 1];
                let delta_start: u32 = if node.start.row == prior.1.row && node.start.column
                    >= prior.1.column {
                    (node.start.column - prior.1.column) as u32
                } else {
                    node.start.column as u32
                };
                let tok = SyntaxToken {
                    delta_start,
                    length: (node.end.column - node.start.column) as u32,
                    kind,
                };
                (
                    prior.0.update(
                        node.start.row as int,
                        prior.0[node.start.row as int].push(tok),
                    ),
                    node.start,
                )
            },
            None => prior,
        }
    }
}

/// The token kind numbers advertised to the editor.
pub const TOKEN_KEYWORD: u32 = 0;

pub const TOKEN_INHERITED_CLASS: u32 = 1;

pub const TOKEN_METHOD_NAME: u32 = 2;

/// The line delta encoding: the distance to the previous token-bearing
/// row, clamped into the encoding.
pub open spec fn spec_delta_line(row: int, prev: int) -> u32 {
    if row >= prev && row - prev <= u32::MAX {
        (row - prev) as u32
    } else {
        0u32
    }
}

/// One row's tokens as delivered: the first carries the line delta, the
/// rest stay on the row.
pub open spec fn spec_row_tokens(toks: Seq<SyntaxToken>, dl: u32) -> Seq<SemanticToken> {
    Seq::new(
        toks.len(),
        |t: int|
            SemanticToken {
                delta_line: if t == 0 {
                    dl
                } else {
                    0u32
                },
                delta_start: toks[t].delta_start,
                length: toks[t].length,
                token_type: toks[t].kind,
                token_modifiers_bitset: 0,
            },
    )
}

/// The last token-bearing row strictly below `lo`, or row zero.
pub open spec fn spec_prev_token_row(tl: Seq<Seq<SyntaxToken>>, lo: int) -> int
    decreases lo,
{
    if lo <= 0 {
        0
    } else if tl[lo - 1].len() > 0 {
        lo - 1
    } else {
        spec_prev_token_row(tl, lo - 1)
    }
}

/// The rows `[row, hi)` flattened in order, with `prev` the row of the
/// token delivered last.
pub open spec fn spec_flatten(tl: Seq<Seq<SyntaxToken>>, row: int, hi: int, prev: int) -> Seq<
    SemanticToken,
>
    decreases hi - row,
{
    if row >= hi {
        Seq::empty()
    } else if tl[row].len() == 0 {
        spec_flatten(tl, row + 1, hi, prev)
    } else {
        spec_row_tokens(tl[row], spec_delta_line(row, prev)) + spec_flatten(tl, row + 1, hi, row)
    }
}

impl SyntaxMap {
    /// The per-line token store.
    pub fn lines(&self) -> (r: &Vec<TokenLine>) {
        &self.lines
    }

    /// The number of lines covered by the map.
    pub fn line_count(&self) -> (r: usize)
        ensures
            r == self.spec_line_count(),
            r == self.spec_lines().len(),
    {
        self.lines.len()
    }

    pub closed spec fn spec_line_count(&self) -> int {
        self.lines@.len() as int
    }

    /// The reading of the per-line token stores.
    pub closed spec fn spec_lines(&self) -> Seq<Seq<SyntaxToken>> {
        token_lines_view(self.lines@)
    }

    /// Build the token map for a tree against the current index state.
    pub fn new(tree: &SyntaxTree, line_count: usize, index: &Index) -> (r: SyntaxMap)
        requires
            tree.wf(),
            index.wf(),
        ensures
            r.spec_line_count() == line_count,
            r.spec_lines() == spec_token_lines(
                tree.nodes@,
                tree.nodes@.len() as int,
                line_count as int,
                index.spec_tables(),
            ).0,
    {
        let mut lines: Vec<TokenLine> = Vec::new();
        while lines.len() < line_count
            invariant
                lines@.len() <= line_count,
                forall|j: int| 0 <= j < lines@.len() ==> (#[trigger] lines@[j].tokens@).len() == 0,
            decreases line_count - lines@.len(),
        {
            lines.push(TokenLine { tokens: Vec::new() });
        }
        proof {
            assert(token_lines_view(lines@) =~~= spec_token_lines(
                tree.nodes@,
                0,
                line_count as int,
                index.spec_tables(),
            ).0);
        }

        let n = tree.node_count();
        let mut prev = Point { row: 0, column: 0 };
        let mut i: usize = 0;
        while i < n
            invariant
                tree.wf(),
                index.wf(),
                n == tree.nodes@.len(),
                i <= n,
                lines@.len() == line_count,
                token_lines_view(lines@) == spec_token_lines(
                    tree.nodes@,
                    i as int,
                    line_count as int,
                    index.spec_tables(),
                ).0,
                prev == spec_token_lines(
                    tree.nodes@,
                    i as int,
                    line_count as int,
                    index.spec_tables(),
                ).1,
            decreases n - i,
        {
            let node = &tree.nodes[i];
            let start = node.start;
            let end = node.end;
            if start.row == end.row && start.row < lines.len() && start.column <= end.column
                && end.column <= u32::MAX as usize && start.row <= u32::MAX as usize {
                let token_kind: Option<u32> = match node.kind {
                    NodeKind::Keyword => Some(TOKEN_KEYWORD),
                    NodeKind::Identifier => {
                        if is_superclass_slot(tree, i) {
                            let name = SymbolName::from_bytes(node.text.as_slice());
                            if index.is_known_class(&name) {
                                Some(TOKEN_INHERITED_CLASS)
                            } else {
                                None
                            }
                        } else if is_called_method_name(tree, i) {
                            let name = SymbolName::from_bytes(node.text.as_slice());
                            if index.is_known_method(&name) {
                                Some(TOKEN_METHOD_NAME)
                            } else {
                                None
                            }
                        } else {
                            None
                        }
                    },
                    _ => None,
                };
                proof {
                    assert(token_kind == spec_emitted_kind(
                        tree.nodes@,
                        i as int,
                        line_count as int,
                        index.spec_tables(),
                    ));
                }
                match token_kind {
                    Some(kind) => {
                        let delta_start: u32 = if start.row == prev.row && start.column
                            >= prev.column {
                            (start.column - prev.column) as u32
                        } else {
                            start.column as u32
                        };
                        let token = SyntaxToken {
                            delta_start,
                            length: (end.column - start.column) as u32,
                            kind,
                        };
                        push_token(&mut lines, start.row, token);
                        prev = start;
                    },
                    None => {},
                }
            } else {
                proof {
                    assert(spec_emitted_kind(
                        tree.nodes@,
                        i as int,
                        line_count as int,
                        index.spec_tables(),
                    ) is None);
                }
            }
            i += 1;
        }
        SyntaxMap { lines }
    }

    /// All tokens of the document, line deltas included.
    pub fn get_all_tokens(&self) -> (r: Vec<SemanticToken>)
        ensures
            r@ == spec_flatten(
                self.spec_lines(),
                0,
                self.spec_line_count(),
                spec_prev_token_row(self.spec_lines(), 0),
            ),
    {
        self.get_tokens_for_lines(0, self.lines.len())
    }

    /// The tokens of the line range `[first, past_last)`, clamped to the
    /// map, with the first token's line delta computed against the last
    /// token-bearing line before the range.
    pub fn get_tokens_for_lines(&self, first: usize, past_last: usize) -> (r: Vec<SemanticToken>)
        ensures
            ({
                let tl = self.spec_lines();
                let hi: int = if past_last <= tl.len() {
                    past_last as int
                } else {
                    tl.len() as int
                };
                let lo: int = if first as int <= hi {
                    first as int
                } else {
                    hi
                };
                r@ == spec_flatten(tl, lo, hi, spec_prev_token_row(tl, lo))
            }),
    {
        let ghost tl = self.spec_lines();
        let hi = if past_last <= self.lines.len() {
            past_last
        } else {
            self.lines.len()
        };
        let lo = if first <= hi {
            first
        } else {
            hi
        };

        // The line the previous token sits on: the last non-empty line
        // before the range, if any.
        let mut prev_row: usize = 0;
        let mut p: usize = lo;
        let mut found = false;
        while p > 0 && !found
            invariant
                tl == self.spec_lines(),
                p <= lo <= self.lines@.len(),
                prev_row <= lo,
                !found ==> prev_row == 0 && spec_prev_token_row(tl, lo as int)
                    == spec_prev_token_row(tl, p as int),
                found ==> prev_row == spec_prev_token_row(tl, lo as int),
            decreases p,
        {
            p -= 1;
            if self.lines[p].tokens.len() > 0 {
                prev_row = p;
                found = true;
            }
        }
        proof {
            assert(prev_row == spec_prev_token_row(tl, lo as int));
        }

        let mut r: Vec<SemanticToken> = Vec::new();
        let mut row: usize = lo;
        while row < hi
            invariant
                tl == self.spec_lines(),
                lo <= row <= hi <= self.lines@.len(),
                prev_row <= row,
                spec_flatten(tl, lo as int, hi as int, spec_prev_token_row(tl, lo as int)) == r@
                    + spec_flatten(tl, row as int, hi as int, prev_row as int),
            decreases hi - row,
        {
            let ghost r_before_row = r@;
            let ghost prev_before_row = prev_row as int;
            let line = &self.lines[row];
            let mut t: usize = 0;
            while t < line.tokens.len()
                invariant
                    tl == self.spec_lines(),
                    lo <= row < self.lines@.len(),
                    line == &self.lines[row as int],
                    line.tokens@ == tl[row as int],
                    t <= line.tokens@.len(),
                    prev_before_row <= row,
                    t == 0 ==> prev_row as int == prev_before_row && r@ == r_before_row,
                    t > 0 ==> prev_row == row && r@ == r_before_row + spec_row_tokens(
                        tl[row as int],
                        spec_delta_line(row as int, prev_before_row),
                    ).take(t as int),
                decreases line.tokens@.len() - t,
            {
                let tok = line.tokens[t];
                let delta_line: u32 = if row >= prev_row && row - prev_row <= u32::MAX as usize {
                    (row - prev_row) as u32
                } else {
                    0
                };
                proof {
                    if t == 0 {
                        assert(delta_line == spec_delta_line(row as int, prev_before_row));
                    } else {
                        assert(delta_line == 0);
                    }
                }
                r.push(
                    SemanticToken {
                        delta_line,
                        delta_start: tok.delta_start,
                        length: tok.length,
                        token_type: tok.kind,
                        token_modifiers_bitset: 0,
                    },
                );
                prev_row = row;
                t += 1;
                proof {
                    let rowts = spec_row_tokens(
                        tl[row as int],
                        spec_delta_line(row as int, prev_before_row),
                    );
                    assert(rowts.take(t as int) =~= rowts.take(t as int - 1).push(
                        rowts[t as int - 1],
                    ));
                    assert(r@ =~= r_before_row + rowts.take(t as int));
                }
            }
            proof {
                let prevs = prev_before_row;
                if tl[row as int].len() == 0 {
                    assert(spec_flatten(tl, row as int, hi as int, prevs) == spec_flatten(
                        tl,
                        row as int + 1,
                        hi as int,
                        prevs,
                    ));
                } else {
                    let rowts = spec_row_tokens(tl[row as int], spec_delta_line(row as int, prevs));
                    assert(rowts.take(tl[row as int].len() as int) =~= rowts);
                    assert(spec_flatten(tl, row as int, hi as int, prevs) == rowts + spec_flatten(
                        tl,
                        row as int + 1,
                        hi as int,
                        row as int,
                    ));
                    assert((r_before_row + rowts) + spec_flatten(
                        tl,
                        row as int + 1,
                        hi as int,
                        row as int,
                    ) =~= r_before_row + (rowts + spec_flatten(
                        tl,
                        row as int + 1,
                        hi as int,
                        row as int,
                    )));
                }
            }
            row += 1;
        }
        proof {
            assert(spec_flatten(tl, hi as int, hi as int, prev_row as int)
                =~= Seq::<SemanticToken>::empty());
            assert(r@ =~= r@ + spec_flatten(tl, hi as int, hi as int, prev_row as int));
        }
        r
    }
}

/// Append a token to the given line.
fn push_token(lines: &mut Vec<TokenLine>, row: usize, token: SyntaxToken)
    requires
        row < old(lines)@.len(),
    ensures
        final(lines)@.len() == old(lines)@.len(),
        token_lines_view(final(lines)@) == token_lines_view(old(lines)@).update(
            row as int,
            token_lines_view(old(lines)@)[row as int].push(token),
        ),
{
    let line = vstd::std_specs::vec::vec_index_mut(lines, row);
    line.tokens.push(token);
    proof {
        assert(token_lines_view(lines@) =~= token_lines_view(old(lines)@).update(
            row as int,
            token_lines_view(old(lines)@)[row as int].push(token),
        ));
    }
}

/// Whether the identifier at `i` sits in the superclass slot of an
/// object or class header: a fieldless identifier child of a header.
fn is_superclass_slot(tree: &SyntaxTree, i: usize) -> (r: bool)
    requires
        tree.wf(),
        i < tree.nodes@.len(),
    ensures
        r == spec_superclass_slot(tree.nodes@, i as int),
{
    let parent = tree.nodes[i].parent;
    let parent_kind = tree.nodes[parent].kind;
    let fieldless = matches!(tree.nodes[i].field, FieldName::NoField);
    fieldless && (matches!(parent_kind, NodeKind::ObjectHeader) || matches!(
        parent_kind,
        NodeKind::ClassHeader,
    ))
}

/// Whether the identifier at `i` is the name of a send, get or set call.
fn is_called_method_name(tree: &SyntaxTree, i: usize) -> (r: bool)
    requires
        tree.wf(),
        i < tree.nodes@.len(),
    ensures
        r == spec_called_method_name(tree.nodes@, i as int),
{
    let parent = tree.nodes[i].parent;
    let parent_kind = tree.nodes[parent].kind;
    let named = matches!(tree.nodes[i].field, FieldName::Name);
    named && (matches!(parent_kind, NodeKind::SendStatement) || matches!(
        parent_kind,
        NodeKind::GetStatement,
    ) || matches!(parent_kind, NodeKind::SetStatement))
}

} // verus!
