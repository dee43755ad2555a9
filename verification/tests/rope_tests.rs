use zed_text_editor::Rope;

#[test]
fn test_empty_rope() {
    let rope = Rope::new();
    assert!(rope.is_empty());
    assert_eq!(rope.len(), 0);
    assert_eq!(rope.line_count(), 0);
}

#[test]
fn test_rope_from_text() {
    let rope = Rope::from_text("Hello, World!");
    assert!(!rope.is_empty());
    assert_eq!(rope.len(), 13);
    assert_eq!(rope.line_count(), 0);
}

#[test]
fn test_rope_with_newlines() {
    let rope = Rope::from_text("Line 1\nLine 2\nLine 3\n");
    assert_eq!(rope.line_count(), 3);
}

#[test]
fn test_rope_push() {
    let mut rope = Rope::from_text("Hello");
    rope.push_str(" World");
    assert_eq!(rope.len(), 11);
}

#[test]
fn test_rope_multi_push() {
    let mut rope = Rope::new();
    rope.push_str("First\n");
    rope.push_str("Second\n");
    rope.push_str("Third\n");

    assert_eq!(rope.len(), 19);
    assert_eq!(rope.line_count(), 3);
}

#[test]
fn test_rope_to_string() {
    let rope = Rope::from_text("Hello, World!");
    assert_eq!(rope.to_string(), "Hello, World!");
}

#[test]
fn test_rope_to_string_multiline() {
    let text = "Line 1\nLine 2\nLine 3\n";
    let rope = Rope::from_text(text);
    assert_eq!(rope.to_string(), text);
}

#[test]
fn test_rope_large_text() {
    let text = "a".repeat(500);
    let rope = Rope::from_text(&text);

    assert_eq!(rope.len(), 500);
    assert_eq!(rope.to_string(), text);
}

#[test]
fn test_rope_chunking() {
    let text = "This is a test that should be split into multiple chunks because it's longer than 128 bytes. Let's make sure the chunking logic works correctly and preserves the text.";
    let rope = Rope::from_text(text);

    assert_eq!(rope.to_string(), text);
}

#[test]
fn test_insert_at_start() {
    let mut rope = Rope::from_text("World");
    rope.insert(0, "Hello ");
    assert_eq!(rope.to_string(), "Hello World");
}

#[test]
fn test_insert_at_end() {
    let mut rope = Rope::from_text("Hello");
    rope.insert(5, " World");
    assert_eq!(rope.to_string(), "Hello World");
}

#[test]
fn test_insert_in_middle() {
    let mut rope = Rope::from_text("HelloWorld");
    rope.insert(5, " ");
    assert_eq!(rope.to_string(), "Hello World");
}

#[test]
fn test_delete_at_start() {
    let mut rope = Rope::from_text("Hello World");
    rope.delete(0, 6);
    assert_eq!(rope.to_string(), "World");
}

#[test]
fn test_delete_at_end() {
    let mut rope = Rope::from_text("Hello World");
    rope.delete(5, 11);
    assert_eq!(rope.to_string(), "Hello");
}

#[test]
fn test_delete_in_middle() {
    let mut rope = Rope::from_text("Hello Beautiful World");
    rope.delete(6, 16);
    assert_eq!(rope.to_string(), "Hello World");
}

#[test]
fn test_insert_and_delete() {
    let mut rope = Rope::from_text("The quick fox");
    assert_eq!(rope.to_string(), "The quick fox");

    rope.insert(10, "brown ");
    assert_eq!(rope.to_string(), "The quick brown fox");

    rope.insert(rope.len(), " jumped");
    assert_eq!(rope.to_string(), "The quick brown fox jumped");
}

#[test]
fn test_multiple_edits() {
    let mut rope = Rope::new();
    rope.insert(0, "Hello");
    rope.insert(5, " ");
    rope.insert(6, "World");
    rope.insert(11, "!");

    assert_eq!(rope.to_string(), "Hello World!");

    rope.delete(5, 6);
    assert_eq!(rope.to_string(), "HelloWorld!");
}

#[test]
fn test_line_to_byte_positions() {
    let rope = Rope::from_text("ab\ncde\n\nf");
    assert_eq!(rope.line_to_byte(0), 0);
    assert_eq!(rope.line_to_byte(1), 3);
    assert_eq!(rope.line_to_byte(2), 7);
    assert_eq!(rope.line_to_byte(3), 8);
    assert_eq!(rope.line_to_byte(4), 9);
}

#[test]
fn test_byte_to_line_col_positions() {
    let rope = Rope::from_text("ab\ncde\n\nf");
    assert_eq!(rope.byte_to_line_col(0), (0, 0));
    assert_eq!(rope.byte_to_line_col(2), (0, 2));
    assert_eq!(rope.byte_to_line_col(3), (1, 0));
    assert_eq!(rope.byte_to_line_col(6), (1, 3));
    assert_eq!(rope.byte_to_line_col(7), (2, 0));
    assert_eq!(rope.byte_to_line_col(9), (3, 1));
}

#[test]
fn test_slice_bytes_ranges() {
    let rope = Rope::from_text("Hello\nWorld");
    assert_eq!(rope.slice_bytes(0, 5), "Hello");
    assert_eq!(rope.slice_bytes(6, 11), "World");
    assert_eq!(rope.slice_bytes(3, 3), "");
    assert_eq!(rope.slice_bytes(6, 100), "World");
}

#[test]
fn test_line_byte_range_per_line() {
    let rope = Rope::from_text("Hello\nWorld\n!");
    assert_eq!(rope.line_byte_range(0), Some((0, 5)));
    assert_eq!(rope.line_byte_range(1), Some((6, 11)));
    assert_eq!(rope.line_byte_range(2), Some((12, 13)));
    assert_eq!(rope.line_byte_range(3), None);
}

#[test]
fn test_rope_line_contents() {
    let rope = Rope::from_text("a\n\nbc");
    assert_eq!(rope.line(0), Some("a".to_string()));
    assert_eq!(rope.line(1), Some("".to_string()));
    assert_eq!(rope.line(2), Some("bc".to_string()));
    assert_eq!(rope.line(3), None);
}

#[test]
fn test_rope_multibyte_boundaries() {
    let text = "héllo\nwörld";
    let rope = Rope::from_text(text);
    assert_eq!(rope.len(), text.len());
    assert_eq!(rope.line_count(), 1);
    // 'é' is two bytes, so line 1 starts at byte 7
    assert_eq!(rope.line_to_byte(1), 7);
    // the column of the last byte counts characters, not bytes
    assert_eq!(rope.byte_to_line_col(text.len()), (1, 5));
}

#[test]
fn test_chunk_count_and_memory() {
    let text = "x".repeat(3000);
    let rope = Rope::from_text(&text);
    let chunks = rope.chunk_count();
    assert_eq!(chunks, 3);
    assert_eq!(rope.memory_usage(), 3000 + 3 * 64);
}
