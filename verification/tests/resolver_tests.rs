use dataflex_lsp::code_completion::CompletionItemKind;
use dataflex_lsp::dataflex_document::DataFlexDocument;
use dataflex_lsp::index::{Index, Indexer, MethodKind};
use dataflex_lsp::point::Point;
use dataflex_lsp::reference_resolver::ReferenceResolver;

#[test]
fn test_resolve_class_reference() {
    let mut index = Index::make_test_index();
    Indexer::index_test_content(
        r#"
Class cMyClass is a cBaseClass
End_Class
            "#,
        "test.pkg".to_string(),
        &mut index,
    );
    let doc = DataFlexDocument::new(
        r#"
Use test.pkg
Object oMyObject is a cMyClass
End_Object
            "#
        .as_bytes(),
        &index,
    );

    let mut symbol = ReferenceResolver::resolve_class_reference(&doc, &index, Point::new(2, 25))
        .into_iter();
    assert_eq!(
        format!("{:?}", symbol.next()),
        "Some(IndexSymbolSnapshot { path: \"test.pkg\", symbol: Class(ClassSymbol { location: Point { row: 1, column: 6 }, name: SymbolName(\"cMyClass\"), superclass: SymbolName(\"cBaseClass\"), members: [] }) })"
    );
    assert_eq!(format!("{:?}", symbol.next()), "None");
}

#[test]
fn test_resolve_method_reference() {
    let mut index = Index::make_test_index();
    Indexer::index_test_content(
        r#"
Class cMyClass is a cBaseClass
    Procedure testIt
    End_Procedure
End_Class

Class cMyOtherClass is a cBaseClass
    Procedure testIt
    End_Procedure
End_Class
            "#,
        "test.pkg".to_string(),
        &mut index,
    );
    let doc = DataFlexDocument::new(
        r#"
Use test.pkg
Object oMyObject is a cMyClass
    Procedure foo
        Send testIt
    End_Procedure
End_Object
            "#
        .as_bytes(),
        &index,
    );

    let mut symbol = ReferenceResolver::resolve_method_reference(
        &doc,
        &index,
        Point::new(4, 16),
        MethodKind::Procedure,
    )
    .into_iter();
    assert_eq!(
        format!("{:?}", symbol.next()),
        "Some(IndexSymbolSnapshot { path: \"test.pkg\", symbol: Method(MethodSymbol { location: Point { row: 2, column: 14 }, symbol_path: SymbolPath([SymbolName(\"cMyClass\"), SymbolName(\"testIt\")]), kind: Procedure }) })"
    );
    assert_eq!(format!("{:?}", symbol.next()), "None");
}

#[test]
fn class_completion_in_object_body() {
    let mut index = Index::make_test_index();
    Indexer::index_test_content(
        "Class cMyClass is a cBaseClass\nEnd_Class",
        "test.pkg".to_string(),
        &mut index,
    );
    let doc = DataFlexDocument::new(
        "Use test.pkg\nObject oMyObject is a cMyClass\nEnd_Object".as_bytes(),
        &index,
    );

    let items = doc
        .code_completion(&index, Point { row: 1, column: 25 })
        .expect("a class completion context");
    assert!(items
        .iter()
        .any(|item| item.label == "cMyClass" && matches!(item.kind, CompletionItemKind::Class)));
}

#[test]
fn method_resolution_with_self_receiver() {
    let mut index = Index::make_test_index();
    Indexer::index_test_content(
        "Class cMyClass is a cBaseClass\n    Procedure testIt\n    End_Procedure\nEnd_Class\n",
        "test.pkg".to_string(),
        &mut index,
    );
    let doc = DataFlexDocument::new(
        "Object oMyObject is a cMyClass\n    Procedure foo\n        Send testIt\n    End_Procedure\nEnd_Object\n"
            .as_bytes(),
        &index,
    );

    let location = doc
        .find_definition(&index, Point { row: 2, column: 16 })
        .expect("a resolved definition");
    assert_eq!(location.path, "test.pkg");
    assert_eq!(location.location, Point { row: 1, column: 14 });
}

#[test]
fn unresolved_receiver_returns_all_candidates() {
    let mut index = Index::make_test_index();
    Indexer::index_test_content(
        "Class cA is a cBase\n    Procedure testIt\n    End_Procedure\nEnd_Class\nClass cB is a cBase\n    Procedure testIt\n    End_Procedure\nEnd_Class\n",
        "test.pkg".to_string(),
        &mut index,
    );
    // The document is a bare call with no enclosing definition, so the
    // receiver cannot be resolved to a class.
    let doc = DataFlexDocument::new("Send testIt\n".as_bytes(), &index);
    let symbols = ReferenceResolver::resolve_method_reference(
        &doc,
        &index,
        Point { row: 0, column: 7 },
        MethodKind::Procedure,
    );
    assert_eq!(symbols.len(), 2);
}

#[test]
fn hierarchy_walk_finds_inherited_member() {
    let mut index = Index::make_test_index();
    Indexer::index_test_content(
        "Class cBase is a cRoot\n    Procedure testIt\n    End_Procedure\nEnd_Class\nClass cChild is a cBase\nEnd_Class\n",
        "test.pkg".to_string(),
        &mut index,
    );
    let doc = DataFlexDocument::new(
        "Object oMyObject is a cChild\n    Procedure foo\n        Send testIt\n    End_Procedure\nEnd_Object\n"
            .as_bytes(),
        &index,
    );
    let location = doc
        .find_definition(&index, Point { row: 2, column: 16 })
        .expect("a resolved definition");
    assert_eq!(location.location, Point { row: 1, column: 14 });
}
