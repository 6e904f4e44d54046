use dataflex_lsp::dataflex_document::{ContentChange, DataFlexDocument};
use dataflex_lsp::index::Index;
use dataflex_lsp::point::Point;

#[test]
fn test_replace_content() {
    let index = Index::make_test_index();
    let mut doc = DataFlexDocument::new("Object oTest is a cTest\nEnd_Object\n".as_bytes(), &index);
    assert_eq!(
        doc.tree.as_ref().unwrap().to_sexp(),
        "(source_file (object_definition (object_header (keyword) name: (identifier) (keyword) (keyword) (identifier)) (object_footer (keyword))))"
    );

    doc.replace_content("Procedure test\nEnd_Procedure\n".as_bytes(), &index);
    assert_eq!(
        doc.tree.as_ref().unwrap().to_sexp(),
        "(source_file (procedure_definition (procedure_header (keyword) name: (identifier)) (procedure_footer (keyword))))"
    );
}

#[test]
fn test_edit_content() {
    let index = Index::make_test_index();
    let mut doc = DataFlexDocument::new("Object oTest is a cTest\nEnd_Object\n".as_bytes(), &index);
    assert_eq!(
        doc.tree.as_ref().unwrap().to_sexp(),
        "(source_file (object_definition (object_header (keyword) name: (identifier) (keyword) (keyword) (identifier)) (object_footer (keyword))))"
    );

    doc.edit_content(
        &vec![ContentChange {
            range: Some((Point { row: 0, column: 23 }, Point { row: 0, column: 23 })),
            text: "\nProcedure test\nEnd_Procedure".as_bytes().to_vec(),
        }],
        &index,
    );

    assert_eq!(
        doc.tree.as_ref().unwrap().to_sexp(),
        "(source_file (object_definition (object_header (keyword) name: (identifier) (keyword) (keyword) (identifier)) (procedure_definition (procedure_header (keyword) name: (identifier)) (procedure_footer (keyword))) (object_footer (keyword))))"
    );
}

#[test]
fn incremental_edit_equals_full_replace() {
    let index = Index::make_test_index();

    let mut edited = DataFlexDocument::new("Object oTest is a cTest\nEnd_Object\n".as_bytes(), &index);
    edited.edit_content(
        &vec![ContentChange {
            range: Some((Point { row: 0, column: 23 }, Point { row: 0, column: 23 })),
            text: "\nProcedure test\nEnd_Procedure".as_bytes().to_vec(),
        }],
        &index,
    );

    let final_text = "Object oTest is a cTest\nProcedure test\nEnd_Procedure\nEnd_Object\n";
    assert_eq!(edited.line_map.text(), final_text.as_bytes().to_vec());

    let fresh = DataFlexDocument::new(final_text.as_bytes(), &index);
    assert_eq!(
        edited.tree.as_ref().unwrap().to_sexp(),
        fresh.tree.as_ref().unwrap().to_sexp()
    );
}

#[test]
fn edits_apply_in_order() {
    let index = Index::make_test_index();
    let mut doc = DataFlexDocument::new("Send A\n".as_bytes(), &index);
    doc.edit_content(
        &vec![
            ContentChange {
                range: Some((Point { row: 0, column: 5 }, Point { row: 0, column: 6 })),
                text: "B".as_bytes().to_vec(),
            },
            ContentChange {
                range: Some((Point { row: 0, column: 5 }, Point { row: 0, column: 6 })),
                text: "Cd".as_bytes().to_vec(),
            },
        ],
        &index,
    );
    assert_eq!(doc.line_map.text(), "Send Cd\n".as_bytes().to_vec());
}
