use dataflex_lsp::index::{Index, IndexFileRef, Indexer, MethodKind, SymbolName};

#[test]
fn test_find_class() {
    let mut index = Index::make_test_index();
    Indexer::index_test_content(
        "Class cMyClass is a cBaseClass\nEnd_Class\n",
        "test.pkg".to_string(),
        &mut index,
    );

    assert_eq!(
        format!("{:?}", index.find_class(&SymbolName::from("cMyClass"))),
        "Some(IndexSymbolSnapshot { path: \"test.pkg\", symbol: ClassSymbol { location: Point { row: 0, column: 6 }, name: SymbolName(\"cMyClass\"), superclass: SymbolName(\"cBaseClass\"), members: [] } })"
    );
}

#[test]
fn test_class_lookup_table() {
    let mut index = Index::make_test_index();

    Indexer::index_test_content(
        "Class cMyClass is a cBaseClass\nEnd_Class\n",
        "test.pkg".to_string(),
        &mut index,
    );
    assert_eq!(
        format!("{:?}", index.lookup_tables().class_ref(&SymbolName::from("cMyClass"))),
        "Some(IndexSymbolRef { file_ref: IndexFileRef(\"test.pkg\"), symbol_path: SymbolPath([SymbolName(\"cMyClass\")]) })"
    );

    Indexer::index_test_content(
        "Class cMyClass is a cBaseClass\nEnd_Class\n\nClass cOtherClass is a cBaseClass\nEnd_Class\n",
        "test.pkg".to_string(),
        &mut index,
    );
    assert_eq!(
        format!("{:?}", index.lookup_tables().class_ref(&SymbolName::from("cMyClass"))),
        "Some(IndexSymbolRef { file_ref: IndexFileRef(\"test.pkg\"), symbol_path: SymbolPath([SymbolName(\"cMyClass\")]) })"
    );
    assert_eq!(
        format!("{:?}", index.lookup_tables().class_ref(&SymbolName::from("cOtherClass"))),
        "Some(IndexSymbolRef { file_ref: IndexFileRef(\"test.pkg\"), symbol_path: SymbolPath([SymbolName(\"cOtherClass\")]) })"
    );

    Indexer::index_test_content(
        "Class cMyRenamedClass is a cBaseClass\nEnd_Class\n\nClass cOtherClass is a cBaseClass\nEnd_Class\n",
        "test.pkg".to_string(),
        &mut index,
    );
    assert_eq!(
        format!("{:?}", index.lookup_tables().class_ref(&SymbolName::from("cMyClass"))),
        "None"
    );
    assert_eq!(
        format!("{:?}", index.lookup_tables().class_ref(&SymbolName::from("cMyRenamedClass"))),
        "Some(IndexSymbolRef { file_ref: IndexFileRef(\"test.pkg\"), symbol_path: SymbolPath([SymbolName(\"cMyRenamedClass\")]) })"
    );
    assert_eq!(
        format!("{:?}", index.lookup_tables().class_ref(&SymbolName::from("cOtherClass"))),
        "Some(IndexSymbolRef { file_ref: IndexFileRef(\"test.pkg\"), symbol_path: SymbolPath([SymbolName(\"cOtherClass\")]) })"
    );
}

#[test]
fn test_method_lookup_table() {
    let mut index = Index::make_test_index();

    Indexer::index_test_content(
        "Class cMyClass is a cBaseClass\n    Procedure SayHello\n    End_Procedure\nEnd_Class\n",
        "test.pkg".to_string(),
        &mut index,
    );
    assert_eq!(
        format!(
            "{:?}",
            index.lookup_tables().method_ref(MethodKind::Procedure, &SymbolName::from("SayHello"))
        ),
        "Some(IndexSymbolRef { file_ref: IndexFileRef(\"test.pkg\"), symbol_path: SymbolPath([SymbolName(\"cMyClass\"), SymbolName(\"SayHello\")]) })"
    );

    Indexer::index_test_content(
        "Class cMyClass is a cBaseClass\n    Procedure SayHello\n    End_Procedure\n    Procedure SayBye\n    End_Procedure\nEnd_Class\n",
        "test.pkg".to_string(),
        &mut index,
    );
    assert_eq!(
        format!(
            "{:?}",
            index.lookup_tables().method_ref(MethodKind::Procedure, &SymbolName::from("SayHello"))
        ),
        "Some(IndexSymbolRef { file_ref: IndexFileRef(\"test.pkg\"), symbol_path: SymbolPath([SymbolName(\"cMyClass\"), SymbolName(\"SayHello\")]) })"
    );
    assert_eq!(
        format!(
            "{:?}",
            index.lookup_tables().method_ref(MethodKind::Procedure, &SymbolName::from("SayBye"))
        ),
        "Some(IndexSymbolRef { file_ref: IndexFileRef(\"test.pkg\"), symbol_path: SymbolPath([SymbolName(\"cMyClass\"), SymbolName(\"SayBye\")]) })"
    );

    Indexer::index_test_content(
        "Class cMyClass is a cBaseClass\n    Procedure SayHelloRenamed\n    End_Procedure\n    Procedure SayBye\n    End_Procedure\nEnd_Class\n",
        "test.pkg".to_string(),
        &mut index,
    );
    assert_eq!(
        format!(
            "{:?}",
            index.lookup_tables().method_ref(MethodKind::Procedure, &SymbolName::from("SayHello"))
        ),
        "None"
    );
    assert_eq!(
        format!(
            "{:?}",
            index.lookup_tables().method_ref(
                MethodKind::Procedure,
                &SymbolName::from("SayHelloRenamed")
            )
        ),
        "Some(IndexSymbolRef { file_ref: IndexFileRef(\"test.pkg\"), symbol_path: SymbolPath([SymbolName(\"cMyClass\"), SymbolName(\"SayHelloRenamed\")]) })"
    );
    assert_eq!(
        format!(
            "{:?}",
            index.lookup_tables().method_ref(MethodKind::Procedure, &SymbolName::from("SayBye"))
        ),
        "Some(IndexSymbolRef { file_ref: IndexFileRef(\"test.pkg\"), symbol_path: SymbolPath([SymbolName(\"cMyClass\"), SymbolName(\"SayBye\")]) })"
    );
}

#[test]
fn rename_purges_stale_class_entry() {
    let mut index = Index::make_test_index();
    Indexer::index_test_content(
        "Class cMyClass is a cBaseClass\nEnd_Class\n",
        "test.pkg".to_string(),
        &mut index,
    );
    assert!(index.is_known_class(&SymbolName::from("cMyClass")));

    Indexer::index_test_content(
        "Class cMyRenamedClass is a cBaseClass\nEnd_Class\n",
        "test.pkg".to_string(),
        &mut index,
    );
    assert!(!index.is_known_class(&SymbolName::from("cMyClass")));
    assert!(index.is_known_class(&SymbolName::from("cMyRenamedClass")));
}

#[test]
fn repeated_identical_updates_are_idempotent() {
    let mut once = Index::make_test_index();
    let content = "Class cMyClass is a cBaseClass\n    Procedure SayHello\n    End_Procedure\nEnd_Class\n";
    Indexer::index_test_content(content, "test.pkg".to_string(), &mut once);

    let mut twice = Index::make_test_index();
    Indexer::index_test_content(content, "test.pkg".to_string(), &mut twice);
    Indexer::index_test_content(content, "test.pkg".to_string(), &mut twice);

    assert_eq!(
        format!("{:?}", once.lookup_tables()),
        format!("{:?}", twice.lookup_tables())
    );
}

#[test]
fn sequence_of_updates_matches_rebuild_from_last() {
    let f0 = "Class cA is a cBase\nEnd_Class\n";
    let f1 = "Class cA is a cBase\n    Procedure DoIt\n    End_Procedure\nEnd_Class\n";
    let f2 = "Class cB is a cBase\n    Function Calc Returns Integer\n    End_Function\nEnd_Class\n";

    let mut stepped = Index::make_test_index();
    Indexer::index_test_content(f0, "test.pkg".to_string(), &mut stepped);
    Indexer::index_test_content(f1, "test.pkg".to_string(), &mut stepped);
    Indexer::index_test_content(f2, "test.pkg".to_string(), &mut stepped);

    let mut fresh = Index::make_test_index();
    Indexer::index_test_content(f2, "test.pkg".to_string(), &mut fresh);

    assert_eq!(
        format!("{:?}", stepped.lookup_tables()),
        format!("{:?}", fresh.lookup_tables())
    );
}

#[test]
fn lookup_entries_resolve_to_live_symbols() {
    let mut index = Index::make_test_index();
    Indexer::index_test_content(
        "Class cMyClass is a cBaseClass\n    Procedure SayHello\n    End_Procedure\n    Property String psName\nEnd_Class\n",
        "test.pkg".to_string(),
        &mut index,
    );

    let class_ref = index
        .lookup_tables()
        .class_ref(&SymbolName::from("cMyClass"))
        .expect("class entry");
    assert!(index.symbol_snapshot(class_ref).is_some());

    let method_ref = index
        .lookup_tables()
        .method_ref(MethodKind::Procedure, &SymbolName::from("SayHello"))
        .expect("method entry");
    assert!(index.symbol_snapshot(method_ref).is_some());

    let property_ref = index
        .lookup_tables()
        .property_ref(&SymbolName::from("psName"))
        .expect("property entry");
    assert!(index.symbol_snapshot(property_ref).is_some());

    assert!(index.file(&IndexFileRef::from("test.pkg")).is_some());
}
