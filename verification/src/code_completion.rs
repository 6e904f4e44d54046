//! Code completion: classify the context at the position and offer the
//! class names, or the method and property names, the index knows.

use vstd::prelude::*;

use crate::dataflex_document::DataFlexDocument;
use crate::document_context::DocumentContext;
use crate::index::{Index, MethodKind, SymbolName};
use crate::point::Point;

verus! {

/// The completion engine.
pub struct CodeCompletion {}

/// One completion offer.
#[derive(Debug)]
pub struct CompletionItem {
    pub label: String,
    pub kind: CompletionItemKind,
}

#[derive(Clone, Copy, Debug, PartialEq, Eq, Structural)]
pub enum CompletionItemKind {
    Class,
    Method,
    Property,
}

/// What the position completes: mirrors the document context.
#[derive(Debug, PartialEq, Eq, Structural)]
pub enum CodeCompletionContext {
    ClassReference,
    MethodReference(MethodKind),
}

impl CodeCompletionContext {
    /// Classify the completion context at a position.
    pub fn context(doc: &DataFlexDocument, position: Point) -> (r: Option<CodeCompletionContext>)
        requires
            doc.wf(),
        ensures
            doc.tree is None ==> r is None,
            doc.tree matches Some(t) ==> r == match crate::document_context::spec_context(
                t.nodes@,
                position,
            ) {
                Some(DocumentContext::ClassReference) => Some(CodeCompletionContext::ClassReference),
                Some(DocumentContext::MethodReference(kind)) => Some(
                    CodeCompletionContext::MethodReference(kind),
                ),
                None => None::<CodeCompletionContext>,
            },
    {
        match DocumentContext::context(doc, position) {
            Some(DocumentContext::ClassReference) => Some(CodeCompletionContext::ClassReference),
            Some(DocumentContext::MethodReference(kind)) => Some(
                CodeCompletionContext::MethodReference(kind),
            ),
            None => None,
        }
    }
}

/// The items offered in a class slot: exactly the known class names.
pub open spec fn class_items(t: crate::index::TablesView, items: Seq<CompletionItem>) -> bool {
    &&& forall|i: int|
        0 <= i < items.len() ==> (#[trigger] items[i]).kind == CompletionItemKind::Class
            && t.classes.contains_key(items[i].label@)
    &&& forall|k: Seq<char>|
        t.classes.contains_key(k) ==> exists|i: int|
            0 <= i < items.len() && (#[trigger] items[i].label@) == k
}

/// The items offered in a call slot of one kind: exactly that kind's
/// method names, plus, for value contexts, the known property names.
pub open spec fn method_items(
    t: crate::index::TablesView,
    kind: MethodKind,
    items: Seq<CompletionItem>,
) -> bool {
    &&& forall|i: int|
        0 <= i < items.len() ==> ((#[trigger] items[i]).kind == CompletionItemKind::Method
            && t.methods(kind).contains_key(items[i].label@)) || (items[i].kind
            == CompletionItemKind::Property && CodeCompletion::offers_properties(kind)
            && t.properties.contains_key(items[i].label@))
    &&& forall|k: Seq<char>|
        t.methods(kind).contains_key(k) ==> exists|i: int|
            0 <= i < items.len() && (#[trigger] items[i].label@) == k && items[i].kind
                == CompletionItemKind::Method
    &&& CodeCompletion::offers_properties(kind) ==> forall|k: Seq<char>|
        t.properties.contains_key(k) ==> exists|i: int|
            0 <= i < items.len() && (#[trigger] items[i].label@) == k && items[i].kind
                == CompletionItemKind::Property
}

impl CodeCompletion {
    /// Completion items for the context at a position: class names in a
    /// class slot, method (and, for value contexts, property) names in a
    /// call slot.
    pub fn code_completion(doc: &DataFlexDocument, index: &Index, position: Point) -> (r: Option<
        Vec<CompletionItem>,
    >)
        requires
            doc.wf(),
            index.wf(),
        ensures
            doc.tree is None ==> r is None,
            doc.tree matches Some(t) ==> match crate::document_context::spec_context(
                t.nodes@,
                position,
            ) {
                Some(DocumentContext::ClassReference) => r matches Some(items) && class_items(
                    index.spec_tables(),
                    items@,
                ),
                Some(DocumentContext::MethodReference(kind)) => r matches Some(items)
                    && method_items(index.spec_tables(), kind, items@),
                None => r is None,
            },
    {
        match CodeCompletionContext::context(doc, position) {
            Some(CodeCompletionContext::ClassReference) => Some(Self::class_completions(index)),
            Some(CodeCompletionContext::MethodReference(kind)) => Some(
                Self::method_completions(index, kind),
            ),
            None => None,
        }
    }

    /// Every known class name, offered as a class: one item per name in
    /// the class table, and nothing else.
    pub fn class_completions(index: &Index) -> (r: Vec<CompletionItem>)
        requires
            index.wf(),
        ensures
            class_items(index.spec_tables(), r@),
    {
        let names = index.all_known_classes();
        let mut items: Vec<CompletionItem> = Vec::new();
        let mut i: usize = 0;
        while i < names.len()
            invariant
                index.wf(),
                i <= names@.len(),
                items@.len() == i,
                forall|j: int|
                    0 <= j < names@.len() ==> index.spec_tables().classes.contains_key(
                        #[trigger] names@[j]@,
                    ),
                forall|j: int|
                    0 <= j < i ==> (#[trigger] items@[j]).kind == CompletionItemKind::Class
                        && items@[j].label@ == names@[j]@,
            decreases names@.len() - i,
        {
            items.push(
                CompletionItem {
                    label: names[i].to_string(),
                    kind: CompletionItemKind::Class,
                },
            );
            i += 1;
        }
        proof {
            assert forall|k: Seq<char>|
                index.spec_tables().classes.contains_key(k) implies exists|t: int|
                0 <= t < items@.len() && (#[trigger] items@[t].label@) == k by {
                let j = choose|j: int| 0 <= j < names@.len() && (#[trigger] names@[j]@) == k;
                assert(items@[j].label@ == k);
            }
        }
        items
    }

    /// Whether a call context of this kind also offers property names.
    pub open spec fn offers_properties(kind: MethodKind) -> bool {
        match kind {
            MethodKind::Procedure => false,
            MethodKind::Function => true,
            MethodKind::Setter => true,
        }
    }

    /// Every known method name of the kind, offered as a method; for
    /// functions and setters every known property name follows, offered
    /// as a property.  Nothing else is offered.
    pub fn method_completions(index: &Index, kind: MethodKind) -> (r: Vec<CompletionItem>)
        requires
            index.wf(),
        ensures
            method_items(index.spec_tables(), kind, r@),
    {
        let names = index.all_known_methods(kind);
        let mut items: Vec<CompletionItem> = Vec::new();
        let mut i: usize = 0;
        while i < names.len()
            invariant
                index.wf(),
                i <= names@.len(),
                items@.len() == i,
                forall|j: int|
                    0 <= j < names@.len() ==> index.spec_tables().methods(kind).contains_key(
                        #[trigger] names@[j]@,
                    ),
                forall|j: int|
                    0 <= j < i ==> (#[trigger] items@[j]).kind == CompletionItemKind::Method
                        && items@[j].label@ == names@[j]@,
            decreases names@.len() - i,
        {
            items.push(
                CompletionItem {
                    label: names[i].to_string(),
                    kind: CompletionItemKind::Method,
                },
            );
            i += 1;
        }
        let ghost method_count = items@.len();
        proof {
            assert forall|k: Seq<char>|
                index.spec_tables().methods(kind).contains_key(k) implies exists|t: int|
                0 <= t < items@.len() && (#[trigger] items@[t].label@) == k && items@[t].kind
                    == CompletionItemKind::Method by {
                let j = choose|j: int| 0 <= j < names@.len() && (#[trigger] names@[j]@) == k;
                assert(items@[j].label@ == k);
            }
        }
        let with_properties = match kind {
            MethodKind::Procedure => false,
            MethodKind::Function => true,
            MethodKind::Setter => true,
        };
        if with_properties {
            let property_names = index.all_known_properties();
            let mut j: usize = 0;
            while j < property_names.len()
                invariant
                    index.wf(),
                    j <= property_names@.len(),
                    items@.len() == method_count + j,
                    forall|t: int|
                        0 <= t < property_names@.len() ==> index.spec_tables(
                        ).properties.contains_key(#[trigger] property_names@[t]@),
                    forall|t: int|
                        0 <= t < method_count ==> (#[trigger] items@[t]).kind
                            == CompletionItemKind::Method && index.spec_tables().methods(
                            kind,
                        ).contains_key(items@[t].label@),
                    forall|t: int|
                        method_count <= t < items@.len() ==> (#[trigger] items@[t]).kind
                            == CompletionItemKind::Property && items@[t].label@ == property_names@[
                        t - method_count]@,
                    forall|k: Seq<char>|
                        index.spec_tables().methods(kind).contains_key(k) ==> exists|t: int|
                            0 <= t < method_count && (#[trigger] items@[t].label@) == k
                                && items@[t].kind == CompletionItemKind::Method,
                decreases property_names@.len() - j,
            {
                let ghost prev = items@;
                items.push(
                    CompletionItem {
                        label: property_names[j].to_string(),
                        kind: CompletionItemKind::Property,
                    },
                );
                j += 1;
                proof {
                    assert forall|k: Seq<char>|
                        index.spec_tables().methods(kind).contains_key(k) implies exists|t: int|
                        0 <= t < method_count && (#[trigger] items@[t].label@) == k && items@[t].kind
                            == CompletionItemKind::Method by {
                        let t = choose|t: int|
                            0 <= t < method_count && (#[trigger] prev[t].label@) == k && prev[t].kind
                                == CompletionItemKind::Method;
                        assert(items@[t] == prev[t]);
                    }
                }
            }
            proof {
                assert forall|k: Seq<char>|
                    index.spec_tables().properties.contains_key(k) implies exists|t: int|
                    0 <= t < items@.len() && (#[trigger] items@[t].label@) == k && items@[t].kind
                        == CompletionItemKind::Property by {
                    let w = choose|w: int|
                        0 <= w < property_names@.len() && (#[trigger] property_names@[w]@) == k;
                    assert(items@[method_count + w].label@ == k);
                }
            }
        }
        items
    }
}

} // verus!
