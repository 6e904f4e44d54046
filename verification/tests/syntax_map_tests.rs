use dataflex_lsp::dataflex_document::DataFlexDocument;
use dataflex_lsp::index::{Index, Indexer};
use dataflex_lsp::syntax_map::{SemanticToken, SyntaxToken};

fn open(text: &str) -> DataFlexDocument {
    let index = Index::make_test_index();
    DataFlexDocument::new(text.as_bytes(), &index)
}

#[test]
fn test_lines() {
    let doc = open("Object oTest is a cTest\nEnd_Object\n");
    let map = doc.syntax_map.as_ref().unwrap();
    assert_eq!(map.line_count(), 3);
    assert_eq!(
        map.lines()[0].tokens,
        vec![
            SyntaxToken { delta_start: 0, length: 6, kind: 0 },
            SyntaxToken { delta_start: 13, length: 2, kind: 0 },
            SyntaxToken { delta_start: 3, length: 1, kind: 0 },
        ]
    );
    assert_eq!(
        map.lines()[1].tokens,
        vec![SyntaxToken { delta_start: 0, length: 10, kind: 0 }]
    );
    assert_eq!(map.lines()[2].tokens, Vec::<SyntaxToken>::new());
}

#[test]
fn test_get_all_tokens() {
    let doc = open("Object oTest is a cTest\nEnd_Object\n");
    let tokens = doc.syntax_map.as_ref().unwrap().get_all_tokens();
    assert_eq!(
        tokens,
        [
            SemanticToken {
                delta_line: 0,
                delta_start: 0,
                length: 6,
                token_type: 0,
                token_modifiers_bitset: 0
            },
            SemanticToken {
                delta_line: 0,
                delta_start: 13,
                length: 2,
                token_type: 0,
                token_modifiers_bitset: 0
            },
            SemanticToken {
                delta_line: 0,
                delta_start: 3,
                length: 1,
                token_type: 0,
                token_modifiers_bitset: 0
            },
            SemanticToken {
                delta_line: 1,
                delta_start: 0,
                length: 10,
                token_type: 0,
                token_modifiers_bitset: 0
            }
        ]
    );
}

#[test]
fn test_get_tokens_for_lines() {
    let doc = open("Object oTest is a cTest\nEnd_Object\n");
    let syntax_map = doc.syntax_map.as_ref().unwrap();
    assert_eq!(
        syntax_map.get_tokens_for_lines(0, 1),
        [
            SemanticToken {
                delta_line: 0,
                delta_start: 0,
                length: 6,
                token_type: 0,
                token_modifiers_bitset: 0
            },
            SemanticToken {
                delta_line: 0,
                delta_start: 13,
                length: 2,
                token_type: 0,
                token_modifiers_bitset: 0
            },
            SemanticToken {
                delta_line: 0,
                delta_start: 3,
                length: 1,
                token_type: 0,
                token_modifiers_bitset: 0
            },
        ]
    );

    assert_eq!(
        syntax_map.get_tokens_for_lines(1, 2),
        [SemanticToken {
            delta_line: 1,
            delta_start: 0,
            length: 10,
            token_type: 0,
            token_modifiers_bitset: 0
        }]
    );
}

#[test]
fn unknown_class_name_suppresses_inherited_class_token() {
    let mut index = Index::make_test_index();
    let mut doc = DataFlexDocument::new("Object oTest is a cUnknown\n".as_bytes(), &index);

    let before = doc.syntax_map.as_ref().unwrap().get_all_tokens();
    assert!(before.iter().all(|t| t.token_type != 1));

    Indexer::index_test_content(
        "Class cUnknown is a cBaseClass\nEnd_Class\n",
        "classes.pkg".to_string(),
        &mut index,
    );
    doc.update_syntax_map(&index);

    let after = doc.syntax_map.as_ref().unwrap().get_all_tokens();
    assert!(after.iter().any(|t| t.token_type == 1 && t.length == 8));
}

#[test]
fn known_method_name_gets_method_token() {
    let mut index = Index::make_test_index();
    Indexer::index_test_content(
        "Class cMyClass is a cBaseClass\n    Procedure DoIt\n    End_Procedure\nEnd_Class\n",
        "classes.pkg".to_string(),
        &mut index,
    );
    let doc = DataFlexDocument::new("Send DoIt\n".as_bytes(), &index);
    let tokens = doc.syntax_map.as_ref().unwrap().get_all_tokens();
    assert!(tokens.iter().any(|t| t.token_type == 2 && t.length == 4));
}
