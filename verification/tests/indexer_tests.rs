use dataflex_lsp::index::symbols_diff::diff_symbols;
use dataflex_lsp::index::{Index, IndexFileRef, Indexer};

#[test]
fn test_index_file_dependency() {
    let mut index = Index::make_test_index();
    Indexer::index_test_content("Use cWebView.pkg\n", "test.vw".to_string(), &mut index);

    let file = index.file(&IndexFileRef::from("test.vw")).expect("file entry");
    assert_eq!(file.dependencies, [IndexFileRef::from("cWebView.pkg")]);
}

#[test]
fn test_index_class() {
    let mut index = Index::make_test_index();
    Indexer::index_test_content(
        "Class cMyClass is a cBaseClass\nEnd_Class\n",
        "test.pkg".to_string(),
        &mut index,
    );

    let file = index.file(&IndexFileRef::from("test.pkg")).expect("file entry");
    assert_eq!(
        format!("{:?}", file.symbols),
        "[Class(ClassSymbol { location: Point { row: 0, column: 6 }, name: SymbolName(\"cMyClass\"), superclass: SymbolName(\"cBaseClass\"), members: [] })]"
    );
}

#[test]
fn test_index_class_procedure_method() {
    let mut index = Index::make_test_index();
    Indexer::index_test_content(
        "Class cMyClass is a cBaseClass\n    Procedure SayHello\n    End_Procedure\nEnd_Class\n",
        "test.pkg".to_string(),
        &mut index,
    );

    let file = index.file(&IndexFileRef::from("test.pkg")).expect("file entry");
    assert_eq!(
        format!("{:?}", file.symbols),
        "[Class(ClassSymbol { location: Point { row: 0, column: 6 }, name: SymbolName(\"cMyClass\"), superclass: SymbolName(\"cBaseClass\"), members: [Method(MethodSymbol { location: Point { row: 1, column: 14 }, symbol_path: SymbolPath([SymbolName(\"cMyClass\"), SymbolName(\"SayHello\")]), kind: Procedure })] })]"
    );
}

#[test]
fn test_index_class_function_method() {
    let mut index = Index::make_test_index();
    Indexer::index_test_content(
        "Class cMyClass is a cBaseClass\n    Function SayHello Returns String\n    End_Function\nEnd_Class\n",
        "test.pkg".to_string(),
        &mut index,
    );

    let file = index.file(&IndexFileRef::from("test.pkg")).expect("file entry");
    assert_eq!(
        format!("{:?}", file.symbols),
        "[Class(ClassSymbol { location: Point { row: 0, column: 6 }, name: SymbolName(\"cMyClass\"), superclass: SymbolName(\"cBaseClass\"), members: [Method(MethodSymbol { location: Point { row: 1, column: 13 }, symbol_path: SymbolPath([SymbolName(\"cMyClass\"), SymbolName(\"SayHello\")]), kind: Function })] })]"
    );
}

fn indexed_symbols(content: &str) -> Vec<dataflex_lsp::index::IndexSymbol> {
    let mut index = Index::make_test_index();
    Indexer::index_test_content(content, "test.pkg".to_string(), &mut index);
    let file = index.file(&IndexFileRef::from("test.pkg")).expect("file entry");
    let mut out = Vec::new();
    for s in file.symbols.iter() {
        out.push(s.clone());
    }
    out
}

#[test]
fn indexer_test_diff_symbols_add_class() {
    let old_symbols = indexed_symbols("Class cMyClass is a cBaseClass\nEnd_Class\n");
    let new_symbols = indexed_symbols(
        "Class cMyClass is a cBaseClass\nEnd_Class\n\nClass cOtherClass is a cBaseClass\nEnd_Class\n",
    );
    let symbols_diff = diff_symbols(&old_symbols, &new_symbols);
    assert_eq!(symbols_diff.added_symbols.len(), 1);
    assert_eq!(symbols_diff.removed_symbols.len(), 0);
}

#[test]
fn indexer_test_diff_symbols_remove_class() {
    let old_symbols = indexed_symbols(
        "Class cMyClass is a cBaseClass\nEnd_Class\n\nClass cOtherClass is a cBaseClass\nEnd_Class\n",
    );
    let new_symbols = indexed_symbols("Class cMyClass is a cBaseClass\nEnd_Class\n");
    let symbols_diff = diff_symbols(&old_symbols, &new_symbols);
    assert_eq!(symbols_diff.added_symbols.len(), 0);
    assert_eq!(symbols_diff.removed_symbols.len(), 1);
}

#[test]
fn indexer_test_diff_symbols_rename_class() {
    let old_symbols = indexed_symbols("Class cMyClass is a cBaseClass\nEnd_Class\n");
    let new_symbols = indexed_symbols("Class cMyRenamedClass is a cBaseClass\nEnd_Class\n");
    let symbols_diff = diff_symbols(&old_symbols, &new_symbols);
    assert_eq!(symbols_diff.added_symbols.len(), 1);
    assert_eq!(symbols_diff.removed_symbols.len(), 1);
}

#[test]
fn indexer_test_diff_symbols_add_method() {
    let old_symbols = indexed_symbols("Class cMyClass is a cBaseClass\nEnd_Class\n");
    let new_symbols = indexed_symbols(
        "Class cMyClass is a cBaseClass\n    Procedure SayHello\n    End_Procedure\nEnd_Class\n",
    );
    let symbols_diff = diff_symbols(&old_symbols, &new_symbols);
    assert_eq!(symbols_diff.added_symbols.len(), 1);
    assert_eq!(symbols_diff.removed_symbols.len(), 0);
}

#[test]
fn indexer_test_diff_symbols_remove_method() {
    let old_symbols = indexed_symbols(
        "Class cMyClass is a cBaseClass\n    Procedure SayHello\n    End_Procedure\nEnd_Class\n",
    );
    let new_symbols = indexed_symbols("Class cMyClass is a cBaseClass\nEnd_Class\n");
    let symbols_diff = diff_symbols(&old_symbols, &new_symbols);
    assert_eq!(symbols_diff.added_symbols.len(), 0);
    assert_eq!(symbols_diff.removed_symbols.len(), 1);
}

#[test]
fn indexer_test_diff_symbols_rename_method() {
    let old_symbols = indexed_symbols(
        "Class cMyClass is a cBaseClass\n    Procedure SayHello\n    End_Procedure\nEnd_Class\n",
    );
    let new_symbols = indexed_symbols(
        "Class cMyClass is a cBaseClass\n    Procedure SayBye\n    End_Procedure\nEnd_Class\n",
    );
    let symbols_diff = diff_symbols(&old_symbols, &new_symbols);
    assert_eq!(symbols_diff.added_symbols.len(), 1);
    assert_eq!(symbols_diff.removed_symbols.len(), 1);
}

#[test]
fn should_index_recognised_extensions() {
    assert!(Indexer::should_index_file("main.pkg"));
    assert!(Indexer::should_index_file("view.vw"));
    assert!(Indexer::should_index_file("web.wo"));
    assert!(Indexer::should_index_file("list.sl"));
    assert!(Indexer::should_index_file("data.dd"));
    assert!(!Indexer::should_index_file("readme.txt"));
    assert!(!Indexer::should_index_file("pkg"));
    assert!(!Indexer::should_index_file("nodotpkg"));
    assert!(!Indexer::should_index_file(".pkg"));
    assert!(!Indexer::should_index_file("dir/.pkg"));
    assert!(Indexer::should_index_file("dir/a.pkg"));
}

#[test]
fn indexes_property_definitions() {
    let mut index = Index::make_test_index();
    Indexer::index_test_content(
        "Class cMyClass is a cBaseClass\n    Property String psName\nEnd_Class\n",
        "test.pkg".to_string(),
        &mut index,
    );
    let file = index.file(&IndexFileRef::from("test.pkg")).expect("file entry");
    assert_eq!(
        format!("{:?}", file.symbols),
        "[Class(ClassSymbol { location: Point { row: 0, column: 6 }, name: SymbolName(\"cMyClass\"), superclass: SymbolName(\"cBaseClass\"), members: [Property(PropertySymbol { location: Point { row: 1, column: 20 }, symbol_path: SymbolPath([SymbolName(\"cMyClass\"), SymbolName(\"psName\")]) })] })]"
    );
}

#[test]
fn files_are_keyed_by_base_name() {
    let mut index = Index::make_test_index();
    Indexer::index_test_content(
        "Class cA is a cBase\nEnd_Class\n",
        "AppSrc/deep/test.pkg".to_string(),
        &mut index,
    );
    let file = index.file(&IndexFileRef::from("test.pkg")).expect("entry under the base name");
    assert_eq!(file.path, "AppSrc/deep/test.pkg");
}
