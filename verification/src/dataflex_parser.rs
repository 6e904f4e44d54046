//! The DataFlex parser: turns source bytes into a syntax tree.
//!
//! The language is line-oriented.  Each line is tokenised on whitespace;
//! the head token decides the statement: block headers and footers for
//! objects, classes, procedures and functions, property declarations,
//! `Use` dependencies, and `Send`/`Get`/`Set` calls.  Blocks nest via a
//! stack of open definitions; a missing footer closes at end of input.

use vstd::prelude::*;
use vstd::slice::{slice_subrange, slice_to_vec};

use crate::line_map::{
    concat_bytes, is_line, lemma_lines_of_concat, spec_lines_of, split_into_lines, vecs_view,
    NEWLINE,
};
use crate::point::Point;
use crate::syntax_tree::{tree_wf, FieldName, NodeKind, SyntaxNode, SyntaxTree};
use crate::text::bytes_eq_ignore_case;

verus! {

/// Bytes that separate tokens: space, tab, carriage return, newline.
pub open spec fn spec_is_ws(b: u8) -> bool {
    b == 32 || b == 9 || b == 13 || b == 10
}

/// A named leaf reads back its bytes: an identifier, number or file-name
/// token lies on one line within it and carries exactly the slice of
/// that line at its column range.
pub open spec fn node_tied(nd: SyntaxNode, lines: Seq<Seq<u8>>) -> bool {
    (nd.kind == NodeKind::Identifier || nd.kind == NodeKind::Number || nd.kind
        == NodeKind::FileName) ==> {
        &&& nd.start.row == nd.end.row
        &&& nd.start.row < lines.len()
        &&& nd.start.column < nd.end.column <= lines[nd.start.row as int].len()
        &&& nd.text@ == lines[nd.start.row as int].subrange(
            nd.start.column as int,
            nd.end.column as int,
        )
    }
}

/// Every node of the store is tied to the text's lines.
pub open spec fn tree_tied(nodes: Seq<SyntaxNode>, lines: Seq<Seq<u8>>) -> bool {
    forall|j: int| 0 <= j < nodes.len() ==> node_tied(#[trigger] nodes[j], lines)
}

/// The per-line form of the tie, for the helpers that see one line.
pub open spec fn line_tied(nd: SyntaxNode, line: Seq<u8>, row: int) -> bool {
    (nd.kind == NodeKind::Identifier || nd.kind == NodeKind::Number || nd.kind
        == NodeKind::FileName) ==> {
        &&& nd.start.row == row
        &&& nd.end.row == row
        &&& nd.start.column < nd.end.column <= line.len()
        &&& nd.text@ == line.subrange(nd.start.column as int, nd.end.column as int)
    }
}

fn is_ws(b: u8) -> (r: bool)
    ensures
        r == spec_is_ws(b),
{
    b == 32 || b == 9 || b == 13 || b == 10
}

/// Split a line into the column ranges of its whitespace-free runs.
fn tokenize(line: &[u8]) -> (r: Vec<(usize, usize)>)
    ensures
        forall|i: int| 0 <= i < r@.len() ==> 0 <= (#[trigger] r@[i]).0 < r@[i].1 <= line@.len(),
{
    let mut r: Vec<(usize, usize)> = Vec::new();
    let mut i: usize = 0;
    while i < line.len()
        invariant
            i <= line@.len(),
            forall|t: int| 0 <= t < r@.len() ==> 0 <= (#[trigger] r@[t]).0 < r@[t].1 <= line@.len(),
        decreases line@.len() - i,
    {
        if is_ws(line[i]) {
            i += 1;
        } else {
            let s = i;
            while i < line.len() && !is_ws(line[i])
                invariant
                    s <= i <= line@.len(),
                    i == s ==> (i < line@.len() && !spec_is_ws(line@[s as int])),
                decreases line@.len() - i,
            {
                i += 1;
            }
            r.push((s, i));
        }
    }
    r
}

/// The kind of a leaf token, by its first byte.
fn classify_token(text: &[u8]) -> (r: NodeKind) {
    if text.len() == 0 {
        NodeKind::Token
    } else {
        let b = text[0];
        if 48 <= b && b <= 57 {
            NodeKind::Number
        } else if (65 <= b && b <= 90) || (97 <= b && b <= 122) || b == 95 {
            NodeKind::Identifier
        } else {
            NodeKind::Token
        }
    }
}

/// Append a node under an existing parent.
fn push_node(
    nodes: &mut Vec<SyntaxNode>,
    kind: NodeKind,
    field: FieldName,
    start: Point,
    end: Point,
    parent: usize,
    text: Vec<u8>,
) -> (idx: usize)
    requires
        tree_wf(old(nodes)@),
        parent < old(nodes)@.len(),
    ensures
        tree_wf(final(nodes)@),
        final(nodes)@.len() == old(nodes)@.len() + 1,
        idx == old(nodes)@.len(),
        forall|i: int| 0 <= i < old(nodes)@.len() ==> final(nodes)@[i] == old(nodes)@[i],
        final(nodes)@.last().kind == kind,
        final(nodes)@.last().parent == parent,
        final(nodes)@.last() == (SyntaxNode { kind, field, start, end, parent, text }),
{
    let idx = nodes.len();
    nodes.push(SyntaxNode { kind, field, start, end, parent, text });
    idx
}

/// Overwrite the end position of a node.
fn set_node_end(nodes: &mut Vec<SyntaxNode>, i: usize, end: Point)
    requires
        tree_wf(old(nodes)@),
        i < old(nodes)@.len(),
    ensures
        tree_wf(final(nodes)@),
        final(nodes)@.len() == old(nodes)@.len(),
        forall|j: int|
            0 <= j < final(nodes)@.len() ==> (#[trigger] final(nodes)@[j]).parent == old(
                nodes,
            )@[j].parent && final(nodes)@[j].kind == old(nodes)@[j].kind,
        forall|j: int|
            0 <= j < final(nodes)@.len() && j != i ==> final(nodes)@[j] == old(nodes)@[j],
        final(nodes)@[i as int] == (SyntaxNode { end, ..old(nodes)@[i as int] }),
{
    let n = vstd::std_specs::vec::vec_index_mut(nodes, i);
    n.end = end;
    proof {
        assert(forall|j: int|
            0 <= j < nodes@.len() && j != i ==> nodes@[j] == old(nodes)@[j]);
    }
}

/// The bytes of one token.
fn token_text(line: &[u8], tok: (usize, usize)) -> (r: Vec<u8>)
    requires
        tok.0 < tok.1 <= line@.len(),
    ensures
        r@ == line@.subrange(tok.0 as int, tok.1 as int),
{
    slice_to_vec(slice_subrange(line, tok.0, tok.1))
}

/// Push the token children of a block header: the head keyword, the name
/// identifier, the little words of the header spelled as keywords, and
/// any remaining tokens.
#[verifier::loop_isolation(false)]
fn push_header_tokens(
    nodes: &mut Vec<SyntaxNode>,
    header: usize,
    line: &[u8],
    toks: &Vec<(usize, usize)>,
    row: usize,
)
    requires
        tree_wf(old(nodes)@),
        header < old(nodes)@.len(),
        toks@.len() >= 1,
        forall|i: int| 0 <= i < toks@.len() ==> 0 <= (#[trigger] toks@[i]).0 < toks@[i].1
            <= line@.len(),
    ensures
        tree_wf(final(nodes)@),
        final(nodes)@.len() >= old(nodes)@.len(),
        forall|j: int| 0 <= j < old(nodes)@.len() ==> final(nodes)@[j] == old(nodes)@[j],
        forall|j: int|
            old(nodes)@.len() <= j < final(nodes)@.len() ==> line_tied(
                #[trigger] final(nodes)@[j],
                line@,
                row as int,
            ),
{
    let head = token_text(line, toks[0]);
    push_node(
        nodes,
        NodeKind::Keyword,
        FieldName::NoField,
        Point { row, column: toks[0].0 },
        Point { row, column: toks[0].1 },
        header,
        head,
    );
    let mut named = false;
    let mut k: usize = 1;
    while k < toks.len()
        invariant
            tree_wf(nodes@),
            header < nodes@.len(),
            nodes@.len() >= old(nodes)@.len(),
            1 <= k <= toks@.len(),
            forall|j: int| 0 <= j < old(nodes)@.len() ==> nodes@[j] == old(nodes)@[j],
            forall|j: int|
                old(nodes)@.len() <= j < nodes@.len() ==> line_tied(
                    #[trigger] nodes@[j],
                    line@,
                    row as int,
                ),
        decreases toks@.len() - k,
    {
        let t = toks[k];
        let text = token_text(line, t);
        let start = Point { row, column: t.0 };
        let end = Point { row, column: t.1 };
        if bytes_eq_ignore_case(text.as_slice(), "is".as_bytes()) || bytes_eq_ignore_case(
            text.as_slice(),
            "a".as_bytes(),
        ) || bytes_eq_ignore_case(text.as_slice(), "returns".as_bytes()) {
            push_node(nodes, NodeKind::Keyword, FieldName::NoField, start, end, header, text);
        } else {
            let kind = classify_token(text.as_slice());
            if !named && matches!(kind, NodeKind::Identifier) {
                named = true;
                push_node(nodes, kind, FieldName::Name, start, end, header, text);
            } else {
                push_node(nodes, kind, FieldName::NoField, start, end, header, text);
            }
        }
        k += 1;
    }
}

/// Push the token children of a call statement: the head keyword, the
/// called name, an optional `to`/`of` receiver, and the arguments.
#[verifier::loop_isolation(false)]
fn push_call_tokens(
    nodes: &mut Vec<SyntaxNode>,
    stmt: usize,
    line: &[u8],
    toks: &Vec<(usize, usize)>,
    row: usize,
)
    requires
        tree_wf(old(nodes)@),
        stmt < old(nodes)@.len(),
        toks@.len() >= 1,
        forall|i: int| 0 <= i < toks@.len() ==> 0 <= (#[trigger] toks@[i]).0 < toks@[i].1
            <= line@.len(),
    ensures
        tree_wf(final(nodes)@),
        final(nodes)@.len() >= old(nodes)@.len(),
        forall|j: int| 0 <= j < old(nodes)@.len() ==> final(nodes)@[j] == old(nodes)@[j],
        forall|j: int|
            old(nodes)@.len() <= j < final(nodes)@.len() ==> line_tied(
                #[trigger] final(nodes)@[j],
                line@,
                row as int,
            ),
{
    let head = token_text(line, toks[0]);
    push_node(
        nodes,
        NodeKind::Keyword,
        FieldName::NoField,
        Point { row, column: toks[0].0 },
        Point { row, column: toks[0].1 },
        stmt,
        head,
    );
    let mut named = false;
    let mut receiver_next = false;
    let mut k: usize = 1;
    while k < toks.len()
        invariant
            tree_wf(nodes@),
            stmt < nodes@.len(),
            nodes@.len() >= old(nodes)@.len(),
            1 <= k <= toks@.len(),
            forall|j: int| 0 <= j < old(nodes)@.len() ==> nodes@[j] == old(nodes)@[j],
            forall|j: int|
                old(nodes)@.len() <= j < nodes@.len() ==> line_tied(
                    #[trigger] nodes@[j],
                    line@,
                    row as int,
                ),
        decreases toks@.len() - k,
    {
        let t = toks[k];
        let text = token_text(line, t);
        let start = Point { row, column: t.0 };
        let end = Point { row, column: t.1 };
        let kind = classify_token(text.as_slice());
        if bytes_eq_ignore_case(text.as_slice(), "to".as_bytes()) || bytes_eq_ignore_case(
            text.as_slice(),
            "of".as_bytes(),
        ) {
            receiver_next = true;
            push_node(nodes, NodeKind::Keyword, FieldName::NoField, start, end, stmt, text);
        } else if receiver_next && matches!(kind, NodeKind::Identifier) {
            receiver_next = false;
            push_node(nodes, kind, FieldName::Receiver, start, end, stmt, text);
        } else if !named && matches!(kind, NodeKind::Identifier) {
            named = true;
            push_node(nodes, kind, FieldName::Name, start, end, stmt, text);
        } else {
            push_node(nodes, kind, FieldName::NoField, start, end, stmt, text);
        }
        k += 1;
    }
}

/// The parser for DataFlex source text.
#[derive(Debug)]
pub struct DataFlexTreeParser {}

impl DataFlexTreeParser {
    pub fn new() -> (r: DataFlexTreeParser) {
        DataFlexTreeParser {  }
    }

    /// Parse source bytes into a syntax tree.  Every identifier, number
    /// and file-name leaf of the result carries exactly the bytes of the
    /// text's line at its recorded range.
    pub fn parse(&self, text: &[u8]) -> (r: SyntaxTree)
        ensures
            r.wf(),
            tree_tied(r.nodes@, spec_lines_of(text@)),
    {
        parse_source(text)
    }
}

/// Parse source bytes into a syntax tree.  Every identifier, number and
/// file-name leaf of the result carries exactly the bytes of the text's
/// line at its recorded range.
#[verifier::loop_isolation(false)]
pub fn parse_source(text: &[u8]) -> (r: SyntaxTree)
    ensures
        r.wf(),
        tree_tied(r.nodes@, spec_lines_of(text@)),
{
    let lines = split_into_lines(text);
    let ghost glines = vecs_view(lines@);
    proof {
        lemma_lines_of_concat(glines);
        assert(spec_lines_of(text@) == glines);
    }
    let mut nodes: Vec<SyntaxNode> = Vec::new();
    push_root(&mut nodes);
    // Indices of the open block definitions, outermost first; the root is
    // always at the bottom.
    let mut stack: Vec<usize> = Vec::new();
    stack.push(0);

    let mut row: usize = 0;
    while row < lines.len()
        invariant
            tree_wf(nodes@),
            stack@.len() >= 1,
            forall|i: int| 0 <= i < stack@.len() ==> (#[trigger] stack@[i]) < nodes@.len(),
            forall|i: int|
                0 <= i < stack@.len() ==> !(nodes@[#[trigger] stack@[i] as int].kind
                    == NodeKind::Identifier || nodes@[stack@[i] as int].kind == NodeKind::Number
                    || nodes@[stack@[i] as int].kind == NodeKind::FileName),
            tree_tied(nodes@, glines),
        decreases lines@.len() - row,
    {
        let line = &lines[row];
        let toks = tokenize(line.as_slice());
        if toks.len() > 0 {
            let head = token_text(line.as_slice(), toks[0]);
            let parent_block = stack[stack.len() - 1];
            let line_start = Point { row, column: toks[0].0 };
            let line_end = Point { row, column: toks[toks.len() - 1].1 };

            if bytes_eq_ignore_case(head.as_slice(), "object".as_bytes()) {
                let def = push_node(
                    &mut nodes,
                    NodeKind::ObjectDefinition,
                    FieldName::NoField,
                    line_start,
                    line_end,
                    parent_block,
                    Vec::new(),
                );
                let header = push_node(
                    &mut nodes,
                    NodeKind::ObjectHeader,
                    FieldName::NoField,
                    line_start,
                    line_end,
                    def,
                    Vec::new(),
                );
                push_header_tokens(&mut nodes, header, line.as_slice(), &toks, row);
                stack.push(def);
            } else if bytes_eq_ignore_case(head.as_slice(), "class".as_bytes()) {
                let def = push_node(
                    &mut nodes,
                    NodeKind::ClassDefinition,
                    FieldName::NoField,
                    line_start,
                    line_end,
                    parent_block,
                    Vec::new(),
                );
                let header = push_node(
                    &mut nodes,
                    NodeKind::ClassHeader,
                    FieldName::NoField,
                    line_start,
                    line_end,
                    def,
                    Vec::new(),
                );
                push_header_tokens(&mut nodes, header, line.as_slice(), &toks, row);
                stack.push(def);
            } else if bytes_eq_ignore_case(head.as_slice(), "procedure".as_bytes()) {
                let def = push_node(
                    &mut nodes,
                    NodeKind::ProcedureDefinition,
                    FieldName::NoField,
                    line_start,
                    line_end,
                    parent_block,
                    Vec::new(),
                );
                let header = push_node(
                    &mut nodes,
                    NodeKind::ProcedureHeader,
                    FieldName::NoField,
                    line_start,
                    line_end,
                    def,
                    Vec::new(),
                );
                push_header_tokens(&mut nodes, header, line.as_slice(), &toks, row);
                stack.push(def);
            } else if bytes_eq_ignore_case(head.as_slice(), "function".as_bytes()) {
                let def = push_node(
                    &mut nodes,
                    NodeKind::FunctionDefinition,
                    FieldName::NoField,
                    line_start,
                    line_end,
                    parent_block,
                    Vec::new(),
                );
                let header = push_node(
                    &mut nodes,
                    NodeKind::FunctionHeader,
                    FieldName::NoField,
                    line_start,
                    line_end,
                    def,
                    Vec::new(),
                );
                push_header_tokens(&mut nodes, header, line.as_slice(), &toks, row);
                stack.push(def);
            } else if bytes_eq_ignore_case(head.as_slice(), "end_object".as_bytes())
                || bytes_eq_ignore_case(head.as_slice(), "end_class".as_bytes())
                || bytes_eq_ignore_case(head.as_slice(), "end_procedure".as_bytes())
                || bytes_eq_ignore_case(head.as_slice(), "end_function".as_bytes()) {
                if stack.len() > 1 {
                    let blk = stack[stack.len() - 1];
                    let footer_kind = if bytes_eq_ignore_case(head.as_slice(), "end_object".as_bytes()) {
                        NodeKind::ObjectFooter
                    } else if bytes_eq_ignore_case(head.as_slice(), "end_class".as_bytes()) {
                        NodeKind::ClassFooter
                    } else if bytes_eq_ignore_case(head.as_slice(), "end_procedure".as_bytes()) {
                        NodeKind::ProcedureFooter
                    } else {
                        NodeKind::FunctionFooter
                    };
                    let footer = push_node(
                        &mut nodes,
                        footer_kind,
                        FieldName::NoField,
                        line_start,
                        line_end,
                        blk,
                        Vec::new(),
                    );
                    push_node(
                        &mut nodes,
                        NodeKind::Keyword,
                        FieldName::NoField,
                        line_start,
                        line_end,
                        footer,
                        head,
                    );
                    set_node_end(&mut nodes, blk, line_end);
                    stack.pop();
                } else {
                    push_node(
                        &mut nodes,
                        NodeKind::Keyword,
                        FieldName::NoField,
                        line_start,
                        line_end,
                        parent_block,
                        head,
                    );
                }
            } else if bytes_eq_ignore_case(head.as_slice(), "use".as_bytes()) {
                let stmt = push_node(
                    &mut nodes,
                    NodeKind::UseStatement,
                    FieldName::NoField,
                    line_start,
                    line_end,
                    parent_block,
                    Vec::new(),
                );
                push_node(
                    &mut nodes,
                    NodeKind::Keyword,
                    FieldName::NoField,
                    line_start,
                    Point { row, column: toks[0].1 },
                    stmt,
                    head,
                );
                if toks.len() > 1 {
                    let t = toks[1];
                    let dep = token_text(line.as_slice(), t);
                    push_node(
                        &mut nodes,
                        NodeKind::FileName,
                        FieldName::Name,
                        Point { row, column: t.0 },
                        Point { row, column: t.1 },
                        stmt,
                        dep,
                    );
                }
            } else if bytes_eq_ignore_case(head.as_slice(), "property".as_bytes()) {
                let stmt = push_node(
                    &mut nodes,
                    NodeKind::PropertyDefinition,
                    FieldName::NoField,
                    line_start,
                    line_end,
                    parent_block,
                    Vec::new(),
                );
                push_property_tokens(&mut nodes, stmt, line.as_slice(), &toks, row);
            } else if bytes_eq_ignore_case(head.as_slice(), "send".as_bytes()) {
                let stmt = push_node(
                    &mut nodes,
                    NodeKind::SendStatement,
                    FieldName::NoField,
                    line_start,
                    line_end,
                    parent_block,
                    Vec::new(),
                );
                push_call_tokens(&mut nodes, stmt, line.as_slice(), &toks, row);
            } else if bytes_eq_ignore_case(head.as_slice(), "get".as_bytes()) {
                let stmt = push_node(
                    &mut nodes,
                    NodeKind::GetStatement,
                    FieldName::NoField,
                    line_start,
                    line_end,
                    parent_block,
                    Vec::new(),
                );
                push_call_tokens(&mut nodes, stmt, line.as_slice(), &toks, row);
            } else if bytes_eq_ignore_case(head.as_slice(), "set".as_bytes()) {
                let stmt = push_node(
                    &mut nodes,
                    NodeKind::SetStatement,
                    FieldName::NoField,
                    line_start,
                    line_end,
                    parent_block,
                    Vec::new(),
                );
                push_call_tokens(&mut nodes, stmt, line.as_slice(), &toks, row);
            } else {
                // A line of plain tokens under the enclosing block.
                let mut k: usize = 0;
                while k < toks.len()
                    invariant
                        tree_wf(nodes@),
                        parent_block < nodes@.len(),
                        forall|i: int|
                            0 <= i < stack@.len() ==> (#[trigger] stack@[i]) < nodes@.len(),
                        forall|i: int|
                            0 <= i < stack@.len() ==> !(nodes@[#[trigger] stack@[i] as int].kind
                                == NodeKind::Identifier || nodes@[stack@[i] as int].kind
                                == NodeKind::Number || nodes@[stack@[i] as int].kind
                                == NodeKind::FileName),
                        tree_tied(nodes@, glines),
                        k <= toks@.len(),
                    decreases toks@.len() - k,
                {
                    let t = toks[k];
                    let text = token_text(line.as_slice(), t);
                    let kind = classify_token(text.as_slice());
                    push_node(
                        &mut nodes,
                        kind,
                        FieldName::NoField,
                        Point { row, column: t.0 },
                        Point { row, column: t.1 },
                        parent_block,
                        text,
                    );
                    k += 1;
                }
            }
        }
        proof {
            assert(glines[row as int] == lines@[row as int]@);
            assert forall|j: int| 0 <= j < nodes@.len() implies node_tied(
                #[trigger] nodes@[j],
                glines,
            ) by {}
            assert forall|i: int| 0 <= i < stack@.len() implies !(nodes@[#[trigger] stack@[
                i] as int].kind == NodeKind::Identifier || nodes@[stack@[i] as int].kind
                == NodeKind::Number || nodes@[stack@[i] as int].kind == NodeKind::FileName) by {}
        }
        row += 1;
    }

    // Close the document: any block still open ends at the end of input,
    // and so does the root.
    let doc_end = end_of_lines(&lines);
    let mut s: usize = stack.len();
    while s > 0
        invariant
            tree_wf(nodes@),
            s <= stack@.len(),
            forall|i: int| 0 <= i < stack@.len() ==> (#[trigger] stack@[i]) < nodes@.len(),
            forall|i: int|
                0 <= i < stack@.len() ==> !(nodes@[#[trigger] stack@[i] as int].kind
                    == NodeKind::Identifier || nodes@[stack@[i] as int].kind == NodeKind::Number
                    || nodes@[stack@[i] as int].kind == NodeKind::FileName),
            tree_tied(nodes@, glines),
        decreases s,
    {
        s -= 1;
        set_node_end(&mut nodes, stack[s], doc_end);
    }

    SyntaxTree { nodes }
}

/// Push the root node of a fresh tree.
fn push_root(nodes: &mut Vec<SyntaxNode>)
    requires
        old(nodes)@.len() == 0,
    ensures
        tree_wf(final(nodes)@),
        final(nodes)@.len() == 1,
{
    nodes.push(
        SyntaxNode {
            kind: NodeKind::SourceFile,
            field: FieldName::NoField,
            start: Point { row: 0, column: 0 },
            end: Point { row: 0, column: 0 },
            parent: 0,
            text: Vec::new(),
        },
    );
}

/// The position just past the last line.
fn end_of_lines(lines: &Vec<Vec<u8>>) -> (r: Point) {
    if lines.len() == 0 {
        Point { row: 0, column: 0 }
    } else {
        Point { row: lines.len() - 1, column: lines[lines.len() - 1].len() }
    }
}

/// Push the token children of a property declaration: the head keyword,
/// then every token, the last identifier carrying the name.
#[verifier::loop_isolation(false)]
fn push_property_tokens(
    nodes: &mut Vec<SyntaxNode>,
    stmt: usize,
    line: &[u8],
    toks: &Vec<(usize, usize)>,
    row: usize,
)
    requires
        tree_wf(old(nodes)@),
        stmt < old(nodes)@.len(),
        toks@.len() >= 1,
        forall|i: int| 0 <= i < toks@.len() ==> 0 <= (#[trigger] toks@[i]).0 < toks@[i].1
            <= line@.len(),
    ensures
        tree_wf(final(nodes)@),
        final(nodes)@.len() >= old(nodes)@.len(),
        forall|j: int| 0 <= j < old(nodes)@.len() ==> final(nodes)@[j] == old(nodes)@[j],
        forall|j: int|
            old(nodes)@.len() <= j < final(nodes)@.len() ==> line_tied(
                #[trigger] final(nodes)@[j],
                line@,
                row as int,
            ),
{
    let head = token_text(line, toks[0]);
    push_node(
        nodes,
        NodeKind::Keyword,
        FieldName::NoField,
        Point { row, column: toks[0].0 },
        Point { row, column: toks[0].1 },
        stmt,
        head,
    );
    // Find the last identifier: that token is the property's name.
    let mut last_ident: usize = 0;
    let mut k: usize = 1;
    while k < toks.len()
        invariant
            1 <= k <= toks@.len(),
            last_ident < toks@.len(),
        decreases toks@.len() - k,
    {
        let text = token_text(line, toks[k]);
        if matches!(classify_token(text.as_slice()), NodeKind::Identifier) {
            last_ident = k;
        }
        k += 1;
    }
    let mut k2: usize = 1;
    while k2 < toks.len()
        invariant
            tree_wf(nodes@),
            stmt < nodes@.len(),
            nodes@.len() >= old(nodes)@.len(),
            1 <= k2 <= toks@.len(),
            last_ident < toks@.len(),
            forall|j: int| 0 <= j < old(nodes)@.len() ==> nodes@[j] == old(nodes)@[j],
            forall|j: int|
                old(nodes)@.len() <= j < nodes@.len() ==> line_tied(
                    #[trigger] nodes@[j],
                    line@,
                    row as int,
                ),
        decreases toks@.len() - k2,
    {
        let t = toks[k2];
        let text = token_text(line, t);
        let start = Point { row, column: t.0 };
        let end = Point { row, column: t.1 };
        let kind = classify_token(text.as_slice());
        if k2 == last_ident {
            push_node(nodes, kind, FieldName::Name, start, end, stmt, text);
        } else {
            push_node(nodes, kind, FieldName::NoField, start, end, stmt, text);
        }
        k2 += 1;
    }
}

} // verus!
