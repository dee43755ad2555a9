use zed_text_editor::{LineIndex, ProgressiveIndexer};

#[test]
fn test_line_index_basic() {
    let mut index = LineIndex::new(20);

    index.add_line(5);
    index.add_line(10);
    index.add_line(15);

    assert_eq!(index.line_offset(0), Some(0));
    assert_eq!(index.line_offset(1), Some(5));
    assert_eq!(index.line_offset(2), Some(10));
    assert_eq!(index.line_offset(3), Some(15));
}

#[test]
fn test_line_index_range() {
    let mut index = LineIndex::new(20);
    index.add_line(5);
    index.add_line(10);

    assert_eq!(index.line_range(0), Some((0, 5)));
    assert_eq!(index.line_range(1), Some((5, 10)));
    assert_eq!(index.line_range(2), Some((10, 20)));
}

#[test]
fn test_index_range_discovers_lines() {
    let text = "line1\nline2\nline3\n";
    let mut index = LineIndex::new(text.len());
    index.index_range(text, 0);
    assert_eq!(index.known_line_count(), 4);
    assert_eq!(index.line_offset(1), Some(6));
    assert_eq!(index.line_offset(2), Some(12));
    assert_eq!(index.line_offset(3), Some(18));
    assert!(index.is_fully_indexed());
}

#[test]
fn test_progressive_indexing_in_chunks() {
    let text = "line1\nline2\nline3\n";
    let mut indexer = ProgressiveIndexer::new(text.len());

    assert!(!indexer.index_chunk("line1\n"));
    assert!(!indexer.index_chunk("line2\n"));
    assert!(indexer.index_chunk("line3\n"));
    assert!(indexer.is_complete());
    assert_eq!(indexer.index().line_offset(1), Some(6));
    assert_eq!(indexer.index().line_offset(2), Some(12));
}
