use dataflex_lsp::code_completion::CodeCompletionContext;
use dataflex_lsp::dataflex_document::DataFlexDocument;
use dataflex_lsp::document_context::DocumentContext;
use dataflex_lsp::index::{Index, MethodKind};
use dataflex_lsp::point::Point;

fn open(text: &str) -> (DataFlexDocument, Index) {
    let index = Index::make_test_index();
    let doc = DataFlexDocument::new(text.as_bytes(), &index);
    (doc, index)
}

#[test]
fn test_class_reference_context() {
    let (doc, _) = open("Object oTest is a cTest\nEnd_Object\n");
    let context = DocumentContext::context(&doc, Point { row: 0, column: 18 });
    assert_eq!(context, Some(DocumentContext::ClassReference));

    let (doc, _) = open("Object oTest is a cTest\n");
    let context = DocumentContext::context(&doc, Point { row: 0, column: 18 });
    assert_eq!(context, Some(DocumentContext::ClassReference));

    let (doc, _) = open("Object oTest is a \n");
    let context = DocumentContext::context(&doc, Point { row: 0, column: 18 });
    assert_eq!(context, Some(DocumentContext::ClassReference));

    let (doc, _) = open("Object oTest is a \nEnd_Object\n");
    let context = DocumentContext::context(&doc, Point { row: 0, column: 18 });
    assert_eq!(context, Some(DocumentContext::ClassReference));

    let (doc, _) = open("Object oTestButton is a cWebButton\nObject oTest is a \nEnd_Object");
    let context = DocumentContext::context(&doc, Point { row: 1, column: 18 });
    assert_eq!(context, Some(DocumentContext::ClassReference));
}

#[test]
fn test_method_reference_context() {
    let (doc, _) = open("Send Foo\n");
    let context = DocumentContext::context(&doc, Point { row: 0, column: 5 });
    assert_eq!(context, Some(DocumentContext::MethodReference(MethodKind::Procedure)));

    let (doc, _) = open("Send Foo\n");
    let context = DocumentContext::context(&doc, Point { row: 0, column: 6 });
    assert_eq!(context, Some(DocumentContext::MethodReference(MethodKind::Procedure)));

    let (doc, _) = open("Get Foo\n");
    let context = DocumentContext::context(&doc, Point { row: 0, column: 6 });
    assert_eq!(context, Some(DocumentContext::MethodReference(MethodKind::Function)));

    let (doc, _) = open("Set Foo\n");
    let context = DocumentContext::context(&doc, Point { row: 0, column: 6 });
    assert_eq!(context, Some(DocumentContext::MethodReference(MethodKind::Setter)));

    let (doc, _) = open("Send Foo 1\n");
    let context = DocumentContext::context(&doc, Point { row: 0, column: 9 });
    assert_eq!(context, None);

    let (doc, _) = open("Send Foo 1\n");
    let context = DocumentContext::context(&doc, Point { row: 0, column: 4 });
    assert_eq!(context, None);
}

#[test]
fn code_completion_test_class_reference_context() {
    let (doc, _) = open("Object oTest is a cTest\nEnd_Object\n");
    let context = CodeCompletionContext::context(&doc, Point { row: 0, column: 18 });
    assert_eq!(context, Some(CodeCompletionContext::ClassReference));

    let (doc, _) = open("Object oTest is a cTest\n");
    let context = CodeCompletionContext::context(&doc, Point { row: 0, column: 18 });
    assert_eq!(context, Some(CodeCompletionContext::ClassReference));

    let (doc, _) = open("Object oTest is a \n");
    let context = CodeCompletionContext::context(&doc, Point { row: 0, column: 18 });
    assert_eq!(context, Some(CodeCompletionContext::ClassReference));

    let (doc, _) = open("Object oTest is a \nEnd_Object\n");
    let context = CodeCompletionContext::context(&doc, Point { row: 0, column: 18 });
    assert_eq!(context, Some(CodeCompletionContext::ClassReference));

    let (doc, _) = open("Object oTestButton is a cWebButton\nObject oTest is a \nEnd_Object");
    let context = CodeCompletionContext::context(&doc, Point { row: 1, column: 18 });
    assert_eq!(context, Some(CodeCompletionContext::ClassReference));
}

#[test]
fn code_completion_test_method_reference_context() {
    let (doc, _) = open("Send Foo\n");
    let context = CodeCompletionContext::context(&doc, Point { row: 0, column: 5 });
    assert_eq!(context, Some(CodeCompletionContext::MethodReference(MethodKind::Procedure)));

    let (doc, _) = open("Send Foo\n");
    let context = CodeCompletionContext::context(&doc, Point { row: 0, column: 6 });
    assert_eq!(context, Some(CodeCompletionContext::MethodReference(MethodKind::Procedure)));

    let (doc, _) = open("Get Foo\n");
    let context = CodeCompletionContext::context(&doc, Point { row: 0, column: 6 });
    assert_eq!(context, Some(CodeCompletionContext::MethodReference(MethodKind::Function)));

    let (doc, _) = open("Set Foo\n");
    let context = CodeCompletionContext::context(&doc, Point { row: 0, column: 6 });
    assert_eq!(context, Some(CodeCompletionContext::MethodReference(MethodKind::Setter)));

    let (doc, _) = open("Send Foo 1\n");
    let context = CodeCompletionContext::context(&doc, Point { row: 0, column: 9 });
    assert_eq!(context, None);

    let (doc, _) = open("Send Foo 1\n");
    let context = CodeCompletionContext::context(&doc, Point { row: 0, column: 4 });
    assert_eq!(context, None);
}
