use dataflex_lsp::index::symbols_diff::{diff_symbols, SymbolsDiff};
use dataflex_lsp::index::{Index, IndexFileRef, IndexSymbol, Indexer};

fn indexed_symbols(content: &str) -> Vec<IndexSymbol> {
    let mut index = Index::make_test_index();
    Indexer::index_test_content(content, "test.pkg".to_string(), &mut index);
    let file = index.file(&IndexFileRef::from("test.pkg")).expect("file entry");
    let mut out = Vec::new();
    for s in file.symbols.iter() {
        out.push(s.clone());
    }
    out
}

fn diff_contents(old_content: &str, new_content: &str) -> SymbolsDiff {
    let old_symbols = indexed_symbols(old_content);
    let new_symbols = indexed_symbols(new_content);
    diff_symbols(&old_symbols, &new_symbols)
}

#[test]
fn symbols_diff_test_diff_symbols_add_class() {
    let symbols_diff = diff_contents(
        "Class cMyClass is a cBaseClass\nEnd_Class\n",
        "Class cMyClass is a cBaseClass\nEnd_Class\n\nClass cOtherClass is a cBaseClass\nEnd_Class\n",
    );
    assert_eq!(symbols_diff.added_symbols.len(), 1);
    assert_eq!(symbols_diff.removed_symbols.len(), 0);
}

#[test]
fn symbols_diff_test_diff_symbols_remove_class() {
    let symbols_diff = diff_contents(
        "Class cMyClass is a cBaseClass\nEnd_Class\n\nClass cOtherClass is a cBaseClass\nEnd_Class\n",
        "Class cMyClass is a cBaseClass\nEnd_Class\n",
    );
    assert_eq!(symbols_diff.added_symbols.len(), 0);
    assert_eq!(symbols_diff.removed_symbols.len(), 1);
}

#[test]
fn symbols_diff_test_diff_symbols_rename_class() {
    let symbols_diff = diff_contents(
        "Class cMyClass is a cBaseClass\nEnd_Class\n",
        "Class cMyRenamedClass is a cBaseClass\nEnd_Class\n",
    );
    assert_eq!(symbols_diff.added_symbols.len(), 1);
    assert_eq!(symbols_diff.removed_symbols.len(), 1);
}

#[test]
fn symbols_diff_test_diff_symbols_add_method() {
    let symbols_diff = diff_contents(
        "Class cMyClass is a cBaseClass\nEnd_Class\n",
        "Class cMyClass is a cBaseClass\n    Procedure SayHello\n    End_Procedure\nEnd_Class\n",
    );
    assert_eq!(symbols_diff.added_symbols.len(), 1);
    assert_eq!(symbols_diff.removed_symbols.len(), 0);
}

#[test]
fn symbols_diff_test_diff_symbols_remove_method() {
    let symbols_diff = diff_contents(
        "Class cMyClass is a cBaseClass\n    Procedure SayHello\n    End_Procedure\nEnd_Class\n",
        "Class cMyClass is a cBaseClass\nEnd_Class\n",
    );
    assert_eq!(symbols_diff.added_symbols.len(), 0);
    assert_eq!(symbols_diff.removed_symbols.len(), 1);
}

#[test]
fn symbols_diff_test_diff_symbols_rename_method() {
    let symbols_diff = diff_contents(
        "Class cMyClass is a cBaseClass\n    Procedure SayHello\n    End_Procedure\nEnd_Class\n",
        "Class cMyClass is a cBaseClass\n    Procedure SayBye\n    End_Procedure\nEnd_Class\n",
    );
    assert_eq!(symbols_diff.added_symbols.len(), 1);
    assert_eq!(symbols_diff.removed_symbols.len(), 1);
}

#[test]
fn diff_against_absent_sides() {
    let mut index = Index::make_test_index();
    Indexer::index_test_content(
        "Class cMyClass is a cBaseClass\nEnd_Class\n",
        "test.pkg".to_string(),
        &mut index,
    );
    let file = index.file(&IndexFileRef::from("test.pkg")).expect("file entry");

    let creation = SymbolsDiff::diff_index_files(None, Some(file));
    assert_eq!(creation.added_symbols.len(), 1);
    assert_eq!(creation.removed_symbols.len(), 0);

    let deletion = SymbolsDiff::diff_index_files(Some(file), None);
    assert_eq!(deletion.added_symbols.len(), 0);
    assert_eq!(deletion.removed_symbols.len(), 1);

    let absent = SymbolsDiff::diff_index_files(None, None);
    assert_eq!(absent.added_symbols.len(), 0);
    assert_eq!(absent.removed_symbols.len(), 0);
}
