use dataflex_lsp::line_map::LineMap;
use dataflex_lsp::point::Point;

fn line(map: &LineMap, row: usize) -> Option<&[u8]> {
    map.line_text_with_ending(row).map(|l| l.as_slice())
}

#[test]
fn test_line_text_with_ending() {
    let line_map = LineMap::new("Object oTest is a cTest\nEnd_Object\n".as_bytes());
    assert_eq!(line_map.line_count(), 2);

    assert_eq!(line(&line_map, 0), Some("Object oTest is a cTest\n".as_bytes()));
    assert_eq!(line(&line_map, 1), Some("End_Object\n".as_bytes()));
    assert_eq!(line(&line_map, 2), None);
}

#[test]
fn test_text_in_range() {
    let line_map = LineMap::new("Object oTest is a cTest\nEnd_Object\n".as_bytes());
    assert_eq!(
        line_map.text_in_range(Point { row: 0, column: 0 }, Point { row: 0, column: 6 }),
        "Object".as_bytes().to_vec()
    );

    assert_eq!(
        line_map.text_in_range(Point { row: 0, column: 0 }, Point { row: 1, column: 10 }),
        "Object oTest is a cTest\nEnd_Object".as_bytes().to_vec()
    );

    assert_eq!(
        line_map.text_in_range(Point { row: 0, column: 0 }, Point { row: 2, column: 0 }),
        "Object oTest is a cTest\nEnd_Object\n".as_bytes().to_vec()
    );
}

#[test]
fn test_insert_text() {
    let mut line_map = LineMap::new("Object oTest is a cTest\nEnd_Object\n".as_bytes());
    assert_eq!(line_map.text(), "Object oTest is a cTest\nEnd_Object\n".as_bytes().to_vec());
    assert_eq!(line_map.line_count(), 2);

    assert_eq!(line(&line_map, 0).unwrap(), "Object oTest is a cTest\n".as_bytes());
    assert_eq!(line_map.text(), "Object oTest is a cTest\nEnd_Object\n".as_bytes().to_vec());

    line_map.replace_range(
        Point { row: 0, column: 12 },
        Point { row: 0, column: 12 },
        "It".as_bytes(),
    );
    assert_eq!(line(&line_map, 0).unwrap(), "Object oTestIt is a cTest\n".as_bytes());

    assert_eq!(line_map.text(), "Object oTestIt is a cTest\nEnd_Object\n".as_bytes().to_vec());
    assert_eq!(line_map.line_count(), 2);
}

#[test]
fn test_insert_new_line() {
    let mut line_map = LineMap::new("Object oTest is a cTest\nEnd_Object\n".as_bytes());
    assert_eq!(line_map.text(), "Object oTest is a cTest\nEnd_Object\n".as_bytes().to_vec());
    assert_eq!(line_map.line_count(), 2);

    line_map.replace_range(
        Point { row: 0, column: 23 },
        Point { row: 0, column: 23 },
        "\n".as_bytes(),
    );

    assert_eq!(line_map.text(), "Object oTest is a cTest\n\nEnd_Object\n".as_bytes().to_vec());
    assert_eq!(line_map.line_count(), 3);
    assert_eq!(line(&line_map, 0).unwrap(), "Object oTest is a cTest\n".as_bytes());
    assert_eq!(line(&line_map, 1).unwrap(), "\n".as_bytes());
    assert_eq!(line(&line_map, 2).unwrap(), "End_Object\n".as_bytes());
}

#[test]
fn test_insert_multiline_text() {
    let mut line_map = LineMap::new("Object oTest is a cTest\nEnd_Object\n".as_bytes());

    assert_eq!(line_map.text(), "Object oTest is a cTest\nEnd_Object\n".as_bytes().to_vec());
    assert_eq!(line_map.line_count(), 2);

    line_map.replace_range(
        Point { row: 0, column: 23 },
        Point { row: 0, column: 23 },
        "\n    Procedure foo\n    End_Procedure".as_bytes(),
    );

    assert_eq!(
        line_map.text(),
        "Object oTest is a cTest\n    Procedure foo\n    End_Procedure\nEnd_Object\n"
            .as_bytes()
            .to_vec()
    );

    assert_eq!(line(&line_map, 0).unwrap(), "Object oTest is a cTest\n".as_bytes());
    assert_eq!(line(&line_map, 1).unwrap(), "    Procedure foo\n".as_bytes());
    assert_eq!(line(&line_map, 2).unwrap(), "    End_Procedure\n".as_bytes());

    assert_eq!(line_map.line_count(), 4);
}

#[test]
fn test_delete_text() {
    let mut line_map = LineMap::new("Object oTest is a cTest\nEnd_Object\n".as_bytes());
    line_map.replace_range(
        Point { row: 0, column: 8 },
        Point { row: 0, column: 12 },
        "".as_bytes(),
    );
    assert_eq!(line_map.text(), "Object o is a cTest\nEnd_Object\n".as_bytes().to_vec());
    assert_eq!(line(&line_map, 0).unwrap(), "Object o is a cTest\n".as_bytes());
    assert_eq!(line(&line_map, 1).unwrap(), "End_Object\n".as_bytes());
    assert_eq!(line_map.line_count(), 2);
}

#[test]
fn test_delete_text_across_lines() {
    let mut line_map = LineMap::new("Object oTest is a cTest\nEnd_Object\n".as_bytes());
    line_map.replace_range(
        Point { row: 0, column: 18 },
        Point { row: 1, column: 3 },
        "".as_bytes(),
    );
    assert_eq!(line_map.text(), "Object oTest is a _Object\n".as_bytes().to_vec());
    assert_eq!(line(&line_map, 0).unwrap(), "Object oTest is a _Object\n".as_bytes());

    assert_eq!(line_map.line_count(), 1);
}

#[test]
fn test_replace_text() {
    let mut line_map = LineMap::new("Object oTest is a cTest\nEnd_Object\n".as_bytes());
    line_map.replace_range(
        Point { row: 0, column: 8 },
        Point { row: 0, column: 12 },
        "MyTest".as_bytes(),
    );
    assert_eq!(line_map.text(), "Object oMyTest is a cTest\nEnd_Object\n".as_bytes().to_vec());
    assert_eq!(line(&line_map, 0).unwrap(), "Object oMyTest is a cTest\n".as_bytes());
    assert_eq!(line(&line_map, 1).unwrap(), "End_Object\n".as_bytes());
    assert_eq!(line_map.line_count(), 2);
}

#[test]
fn test_replace_text_across_lines() {
    let mut line_map = LineMap::new("Object oTest is a cTest\nEnd_Object\n".as_bytes());
    line_map.replace_range(
        Point { row: 0, column: 18 },
        Point { row: 1, column: 3 },
        "cMyTest\n".as_bytes(),
    );
    assert_eq!(line_map.text(), "Object oTest is a cMyTest\n_Object\n".as_bytes().to_vec());
    assert_eq!(line(&line_map, 0).unwrap(), "Object oTest is a cMyTest\n".as_bytes());
    assert_eq!(line(&line_map, 1).unwrap(), "_Object\n".as_bytes());

    assert_eq!(line_map.line_count(), 2);
}

#[test]
fn test_offset_at_point() {
    let line_map = LineMap::new("Object oTest is a cTest\nEnd_Object\n".as_bytes());
    assert_eq!(line_map.offset_at_point(Point { row: 0, column: 0 }), 0);
    assert_eq!(line_map.offset_at_point(Point { row: 0, column: 1 }), 1);
    assert_eq!(line_map.offset_at_point(Point { row: 0, column: 23 }), 23);
    assert_eq!(line_map.offset_at_point(Point { row: 1, column: 0 }), 24);
    assert_eq!(line_map.offset_at_point(Point { row: 1, column: 4 }), 28);
    assert_eq!(line_map.offset_at_point(Point { row: 2, column: 0 }), 35);
}

#[test]
fn test_point_at_offset() {
    let line_map = LineMap::new("Object oTest is a cTest\nEnd_Object\n".as_bytes());
    assert_eq!(line_map.point_at_offset(0), Point { row: 0, column: 0 });
    assert_eq!(line_map.point_at_offset(1), Point { row: 0, column: 1 });
    assert_eq!(line_map.point_at_offset(23), Point { row: 0, column: 23 });
    assert_eq!(line_map.point_at_offset(24), Point { row: 1, column: 0 });
    assert_eq!(line_map.point_at_offset(28), Point { row: 1, column: 4 });
    assert_eq!(line_map.point_at_offset(35), Point { row: 2, column: 0 });
}

#[test]
fn splice_matches_direct_byte_splice() {
    let original = "Object oTest is a cTest\nEnd_Object\n";
    let mut line_map = LineMap::new(original.as_bytes());
    line_map.replace_range(
        Point { row: 0, column: 7 },
        Point { row: 1, column: 4 },
        "x\ny\nz".as_bytes(),
    );
    let mut expected = original.as_bytes().to_vec();
    expected.splice(7..28, "x\ny\nz".as_bytes().iter().copied());
    assert_eq!(line_map.text(), expected);
}

#[test]
fn empty_document_has_no_lines() {
    let line_map = LineMap::new("".as_bytes());
    assert_eq!(line_map.line_count(), 0);
    assert_eq!(line_map.text(), Vec::<u8>::new());
    assert_eq!(line_map.row_count(), 1);
}

#[test]
fn final_line_without_ending_is_content_bearing() {
    let line_map = LineMap::new("Object oTest is a cTest\nEnd_Object".as_bytes());
    assert_eq!(line_map.line_count(), 2);
    assert_eq!(line_map.row_count(), 2);
    let with_newline = LineMap::new("Object oTest is a cTest\nEnd_Object\n".as_bytes());
    assert_eq!(with_newline.row_count(), 3);
}
