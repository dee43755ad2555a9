use zed_text_editor::{Buffer, Offset, Point, ScrollDirection};

#[test]
fn test_empty_buffer() {
    let buffer = Buffer::new();
    assert!(buffer.is_empty());
    assert_eq!(buffer.len(), 0);
    assert_eq!(buffer.line_count(), 1);
}

#[test]
fn test_buffer_from_text() {
    let buffer = Buffer::from_text("Hello, World!");
    assert_eq!(buffer.len(), 13);
    assert_eq!(buffer.line_count(), 1);
}

#[test]
fn test_point_to_offset() {
    let buffer = Buffer::from_text("Hello\nWorld\n!");

    assert_eq!(buffer.point_to_offset(Point::new(0, 0)), Offset(0));
    assert_eq!(buffer.point_to_offset(Point::new(0, 5)), Offset(5));
    assert_eq!(buffer.point_to_offset(Point::new(1, 0)), Offset(6));
    assert_eq!(buffer.point_to_offset(Point::new(1, 5)), Offset(11));
    assert_eq!(buffer.point_to_offset(Point::new(2, 0)), Offset(12));
}

#[test]
fn test_offset_to_point() {
    let buffer = Buffer::from_text("Hello\nWorld\n!");

    assert_eq!(buffer.offset_to_point(Offset(0)), Point::new(0, 0));
    assert_eq!(buffer.offset_to_point(Offset(5)), Point::new(0, 5));
    assert_eq!(buffer.offset_to_point(Offset(6)), Point::new(1, 0));
    assert_eq!(buffer.offset_to_point(Offset(11)), Point::new(1, 5));
    assert_eq!(buffer.offset_to_point(Offset(12)), Point::new(2, 0));
}

#[test]
fn test_roundtrip_conversion() {
    let buffer = Buffer::from_text("Line 1\nLine 2\nLine 3\n");

    let points = vec![
        Point::new(0, 0),
        Point::new(0, 3),
        Point::new(1, 0),
        Point::new(2, 6),
    ];

    for point in points {
        let offset = buffer.point_to_offset(point);
        let back = buffer.offset_to_point(offset);
        assert_eq!(point, back, "Roundtrip failed for {:?}", point);
    }
}

#[test]
fn test_get_line() {
    let buffer = Buffer::from_text("Line 1\nLine 2\nLine 3");

    assert_eq!(buffer.line(0), Some("Line 1".to_string()));
    assert_eq!(buffer.line(1), Some("Line 2".to_string()));
    assert_eq!(buffer.line(2), Some("Line 3".to_string()));
    assert_eq!(buffer.line(3), None);
}

#[test]
fn test_get_all_lines() {
    let buffer = Buffer::from_text("A\nB\nC");
    let lines = buffer.lines();

    assert_eq!(lines, vec!["A", "B", "C"]);
}

#[test]
fn test_line_count() {
    let b1 = Buffer::from_text("Single line");
    assert_eq!(b1.line_count(), 1);

    let b2 = Buffer::from_text("Line 1\nLine 2");
    assert_eq!(b2.line_count(), 2);

    let b3 = Buffer::from_text("A\nB\nC\n");
    assert_eq!(b3.line_count(), 4);
}

#[test]
fn test_insert_at_point() {
    let mut buffer = Buffer::from_text("Hello World");

    let offset = buffer.point_to_offset(Point::new(0, 5));
    buffer.insert(offset, "\n");

    assert_eq!(buffer.to_string(), "Hello\n World");
    assert_eq!(buffer.line_count(), 2);
}

#[test]
fn test_delete_at_point() {
    let mut buffer = Buffer::from_text("Hello\nWorld");

    let start = buffer.point_to_offset(Point::new(0, 5));
    let end = buffer.point_to_offset(Point::new(1, 0));
    buffer.delete(start, end);

    assert_eq!(buffer.to_string(), "HelloWorld");
}

#[test]
fn test_point_clamps_past_line_end() {
    let buffer = Buffer::from_text("ab\ncd");
    // a column past the end of the line clamps to the line's end
    assert_eq!(buffer.point_to_offset(Point::new(0, 99)), Offset(2));
    // a row past the end clamps to the end of the document
    assert_eq!(buffer.point_to_offset(Point::new(9, 0)), Offset(5));
    // an offset past the end clamps to the last position
    assert_eq!(buffer.offset_to_point(Offset(100)), Point::new(1, 2));
}

#[test]
fn test_cached_line_offsets_match_fresh() {
    let mut text = String::new();
    for i in 0..2000 {
        text.push_str(&format!("line {}\n", i));
    }
    let fresh = Buffer::from_text(&text);
    let mut cached = Buffer::from_text(&text);
    cached.ensure_range_cached(1900, 2000);

    let wanted: Vec<usize> = (1900..2000).collect();
    let offsets = cached.get_line_offsets_batch(&wanted);
    for (i, line) in wanted.iter().enumerate() {
        let expected = fresh.rope().line_to_byte(*line);
        assert_eq!(offsets[i], expected, "cached offset for line {} diverged", line);
    }
}

#[test]
fn test_cache_stays_exact_across_edits() {
    let mut buffer = Buffer::from_text("aa\nbb\ncc\ndd\n");
    buffer.ensure_range_cached(0, 5);
    // single-line edit on line 1 shifts every later line start
    let off = buffer.point_to_offset(Point::new(1, 0));
    buffer.insert(off, "XY");
    let offsets = buffer.get_line_offsets_batch(&[0, 1, 2, 3]);
    assert_eq!(offsets, vec![0, 3, 8, 11]);
}

#[test]
fn test_scroll_prediction_primes_the_cache() {
    let mut text = String::new();
    for i in 0..2000 {
        text.push_str(&format!("row {}\n", i));
    }
    let fresh = Buffer::from_text(&text);
    let mut buffer = Buffer::from_text(&text);

    // a downward scroll primes the lines around and below the viewport
    buffer.update_scroll_prediction(1000, 1040, ScrollDirection::Down, 0, 0);
    let wanted: Vec<usize> = (900..1240).collect();
    let offsets = buffer.get_line_offsets_batch(&wanted);
    for (i, line) in wanted.iter().enumerate() {
        assert_eq!(offsets[i], fresh.rope().line_to_byte(*line));
    }
    // the cache never ends a call above its eviction ceiling
    assert!(buffer.cache_stats().cached_lines <= 10000);
}

#[test]
fn test_slice_and_ranges_via_buffer() {
    let buffer = Buffer::from_text("Hello\nWorld");
    assert_eq!(buffer.slice_bytes(0, 5), "Hello");
    assert_eq!(buffer.line_byte_range(1), Some((6, 11)));
    assert_eq!(buffer.line_byte_range(2), None);
}
