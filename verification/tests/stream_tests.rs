use zed_text_editor::{FileInfo, StreamingLoader};
use zed_text_editor::stream::is_text_content;

#[test]
fn test_is_text_content_thresholds() {
    assert!(is_text_content(b""));
    assert!(is_text_content(b"plain words"));

    // exactly one null in a hundred bytes is already too many
    let mut hundred = vec![7u8; 100];
    hundred[50] = 0;
    assert!(!is_text_content(&hundred));

    // one null in more than a hundred bytes still counts as text
    let mut hundred_one = vec![7u8; 101];
    hundred_one[50] = 0;
    assert!(is_text_content(&hundred_one));
}

#[test]
fn test_streaming_loader_sizes() {
    assert_eq!(StreamingLoader::default().chunk_size, 64 * 1024);
    assert_eq!(StreamingLoader::new(4096).chunk_size, 4096);
}

#[test]
fn test_should_stream_and_mmap() {
    let small = FileInfo { size: 1024, is_text: true, line_count_estimate: Some(10) };
    assert!(!small.should_stream());
    assert!(!small.should_mmap());

    let medium = FileInfo { size: 6 * 1024 * 1024, is_text: true, line_count_estimate: None };
    assert!(medium.should_stream());
    assert!(!medium.should_mmap());

    let large = FileInfo { size: 11 * 1024 * 1024, is_text: true, line_count_estimate: None };
    assert!(large.should_stream());
    assert!(large.should_mmap());
}
