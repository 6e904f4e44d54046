//! The concrete syntax tree: a flat store of nodes in source order, each
//! carrying its kind, position range, parent link and, for leaf tokens,
//! its text.

use vstd::prelude::*;

use crate::point::Point;

verus! {

/// The kind of a syntax node.
#[derive(Clone, Copy, Debug, PartialEq, Eq, Structural)]
pub enum NodeKind {
    SourceFile,
    ObjectDefinition,
    ObjectHeader,
    ObjectFooter,
    ClassDefinition,
    ClassHeader,
    ClassFooter,
    ProcedureDefinition,
    ProcedureHeader,
    ProcedureFooter,
    FunctionDefinition,
    FunctionHeader,
    FunctionFooter,
    PropertyDefinition,
    UseStatement,
    SendStatement,
    GetStatement,
    SetStatement,
    Keyword,
    Identifier,
    Number,
    FileName,
    Token,
}

/// The grammar field a node fills inside its parent, if any.
#[derive(Clone, Copy, Debug, PartialEq, Eq, Structural)]
pub enum FieldName {
    NoField,
    Name,
    Receiver,
}

/// One node of the syntax tree.
#[derive(Debug)]
pub struct SyntaxNode {
    pub kind: NodeKind,
    pub field: FieldName,
    pub start: Point,
    pub end: Point,
    /// The index of the enclosing node; the root points at itself.
    pub parent: usize,
    /// The source bytes of a leaf token; empty for interior nodes.
    pub text: Vec<u8>,
}

/// A parse tree: nodes in source (pre-)order, linked by parent indices.
#[derive(Debug)]
pub struct SyntaxTree {
    pub nodes: Vec<SyntaxNode>,
}

/// Parent links point strictly backwards, and node zero is the root.
pub open spec fn tree_wf(nodes: Seq<SyntaxNode>) -> bool {
    &&& nodes.len() >= 1
    &&& nodes[0].parent == 0
    &&& nodes[0].kind == NodeKind::SourceFile
    &&& forall|i: int| 1 <= i < nodes.len() ==> (#[trigger] nodes[i].parent) < i
}

impl SyntaxTree {
    /// Structural well-formedness of the node store.
    pub open spec fn wf(&self) -> bool {
        tree_wf(self.nodes@)
    }

    /// The number of nodes.
    pub fn node_count(&self) -> (r: usize)
        ensures
            r == self.nodes@.len(),
    {
        self.nodes.len()
    }

    /// A node is a leaf when no later node points back at it.
    pub open spec fn spec_is_leaf(&self, i: int) -> bool {
        forall|j: int| i < j < self.nodes@.len() ==> (#[trigger] self.nodes@[j].parent) != i
    }

    /// Whether any child of `i` exists.
    pub fn has_child(&self, i: usize) -> (r: bool)
        requires
            i < self.nodes@.len(),
        ensures
            r == !self.spec_is_leaf(i as int),
    {
        let n = self.nodes.len();
        let mut j: usize = i + 1;
        while j < n
            invariant
                n == self.nodes@.len(),
                i < j <= self.nodes@.len(),
                forall|t: int| i < t < j ==> (#[trigger] self.nodes@[t].parent) != i,
            decreases self.nodes@.len() - j,
        {
            if self.nodes[j].parent == i {
                return true;
            }
            j += 1;
        }
        false
    }
}

impl SyntaxTree {
    /// Render the tree as an s-expression over node kinds, with `name:`
    /// prefixes on name fields.  A rendering helper for tests and
    /// debugging: only non-emptiness is pinned, the shape is checked by
    /// the tests that compare rendered trees.
    pub fn to_sexp(&self) -> (r: String)
        requires
            self.wf(),
        ensures
            r@.len() > 0,
    {
        sexp_of(self, 0)
    }
}

/// The grammar name of a node kind.
fn kind_name(k: NodeKind) -> (r: &'static str) {
    match k {
        NodeKind::SourceFile => "source_file",
        NodeKind::ObjectDefinition => "object_definition",
        NodeKind::ObjectHeader => "object_header",
        NodeKind::ObjectFooter => "object_footer",
        NodeKind::ClassDefinition => "class_definition",
        NodeKind::ClassHeader => "class_header",
        NodeKind::ClassFooter => "class_footer",
        NodeKind::ProcedureDefinition => "procedure_definition",
        NodeKind::ProcedureHeader => "procedure_header",
        NodeKind::ProcedureFooter => "procedure_footer",
        NodeKind::FunctionDefinition => "function_definition",
        NodeKind::FunctionHeader => "function_header",
        NodeKind::FunctionFooter => "function_footer",
        NodeKind::PropertyDefinition => "property_definition",
        NodeKind::UseStatement => "use_statement",
        NodeKind::SendStatement => "send_statement",
        NodeKind::GetStatement => "get_statement",
        NodeKind::SetStatement => "set_statement",
        NodeKind::Keyword => "keyword",
        NodeKind::Identifier => "identifier",
        NodeKind::Number => "number",
        NodeKind::FileName => "file_name",
        NodeKind::Token => "token",
    }
}

/// The s-expression of the subtree rooted at `i`.
fn sexp_of(tree: &SyntaxTree, i: usize) -> (r: String)
    requires
        tree.wf(),
        i < tree.nodes@.len(),
    ensures
        r@.len() > 0,
    decreases tree.nodes@.len() - i,
{
    let mut s = String::new();
    s.append("(");
    proof {
        reveal_strlit("(");
        assert(s@.len() >= 1);
    }
    s.append(kind_name(tree.nodes[i].kind));
    let n = tree.nodes.len();
    let mut j: usize = i + 1;
    while j < n
        invariant
            tree.wf(),
            n == tree.nodes@.len(),
            i < j <= n,
            s@.len() >= 1,
        decreases n - j,
    {
        if tree.nodes[j].parent == i {
            s.append(" ");
            if matches!(tree.nodes[j].field, FieldName::Name) {
                s.append("name: ");
            }
            let child = sexp_of(tree, j);
            s.append(child.as_str());
        }
        j += 1;
    }
    s.append(")");
    s
}

} // verus!
