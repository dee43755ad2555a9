use zed_text_editor::{Chunk, MultiCursor, Offset, Point, Selection};

#[test]
fn test_offset_helpers() {
    assert_eq!(Offset::new(7), Offset(7));
    assert_eq!(Offset::zero(), Offset(0));
    assert_eq!(Offset(9).value(), 9);
}

#[test]
fn test_point_helpers() {
    assert_eq!(Point::zero(), Point::new(0, 0));
    let p = Point::new(3, 4);
    assert_eq!(p.row, 3);
    assert_eq!(p.column, 4);
}

#[test]
fn test_selection_range_orders_points() {
    let forward = Selection::new(Point::new(0, 1), Point::new(2, 0));
    assert_eq!(forward.range(), (Point::new(0, 1), Point::new(2, 0)));

    let backward = Selection::new(Point::new(2, 0), Point::new(0, 1));
    assert_eq!(backward.range(), (Point::new(0, 1), Point::new(2, 0)));

    let cursor = Selection::cursor(Point::new(1, 1));
    assert!(cursor.is_empty());
    assert!(!forward.is_empty());

    let _multi = MultiCursor::new();
}

#[test]
fn test_chunk_newline_cache() {
    let chunk = Chunk::new("ab\nc\n".to_string());
    assert_eq!(chunk.len(), 5);
    assert!(!chunk.is_empty());
    assert_eq!(chunk.count_lines(), 2);
    assert_eq!(chunk.get_newline_position(0), Some(2));
    assert_eq!(chunk.get_newline_position(1), Some(4));
    assert_eq!(chunk.get_newline_position(2), None);
    assert_eq!(chunk.newline_positions(), &[2, 4]);
    assert_eq!(chunk.as_str(), "ab\nc\n");

    let (left, right) = chunk.split_at(3);
    assert_eq!(left.as_str(), "ab\n");
    assert_eq!(right.as_str(), "c\n");
    assert_eq!(chunk.slice(1, 4).as_str(), "b\nc");
}
