use zed_text_editor::{LineOffsetCache, PredictiveCache, ReusableBuffer, Rope, ScrollDirection};

#[test]
fn test_zero_allocation_cache() {
    let mut cache = LineOffsetCache::new(1000);
    let editor = Rope::new();
    let mut buffer = ReusableBuffer::new();

    let lines = [];
    let offsets = cache.get_offsets_zero_alloc(&lines, &editor, &mut buffer);
    assert_eq!(offsets.len(), 0);

    cache.ensure_range_cached(&editor, 100, 150);
    let stats = cache.cache_stats();
    assert!(stats.total_capacity > 0);
}

#[test]
fn test_reusable_buffer() {
    let mut buffer = ReusableBuffer::new();
    let original_capacity = buffer.buffer.capacity();

    let temp = buffer.take();
    buffer.restore(temp);

    assert_eq!(buffer.buffer.capacity(), original_capacity);
}

#[test]
fn test_cache_resolves_exact_offsets() {
    let rope = Rope::from_text("one\ntwo\nthree\nfour\n");
    let mut cache = LineOffsetCache::new(rope.line_count());
    let mut scratch = ReusableBuffer::new();

    let offsets = cache.get_offsets_zero_alloc(&[0, 1, 2, 3], &rope, &mut scratch).to_vec();
    assert_eq!(offsets, vec![0, 4, 8, 14]);

    // a second pass is served from the cache and must agree
    let again = cache.get_offsets_zero_alloc(&[0, 1, 2, 3], &rope, &mut scratch).to_vec();
    assert_eq!(again, offsets);
}

#[test]
fn test_invalidation_forgets_lines() {
    let rope = Rope::from_text("a\nb\nc\nd\n");
    let mut cache = LineOffsetCache::new(rope.line_count());
    cache.ensure_range_cached(&rope, 0, 4);
    let before = cache.cache_stats().cached_lines;
    assert!(before > 0);

    cache.invalidate_from(2);
    let after = cache.cache_stats().cached_lines;
    assert!(after < before);

    cache.invalidate_all();
    assert_eq!(cache.cache_stats().cached_lines, 0);
}

#[test]
fn test_predictive_ranges_follow_direction() {
    let mut policy = PredictiveCache::new();
    policy.update_scroll_prediction(500, 520, ScrollDirection::Down, 50, 1000);
    // base padding 100 plus 50 from speed; doubled in the scroll direction
    assert_eq!(policy.calculate_precalc_range(), (350, 820));
    assert_eq!(policy.get_precalc_range(600), (350, 600));
    assert!(policy.should_precache(1400));
    assert!(!policy.should_precache(1500));

    policy.update_scroll_prediction(500, 520, ScrollDirection::Up, 50, 2000);
    assert_eq!(policy.calculate_precalc_range(), (200, 670));
}

#[test]
fn test_eviction_and_memory() {
    let rope = Rope::from_text("x\n".repeat(50).as_str());
    let mut cache = LineOffsetCache::new(rope.line_count());
    cache.ensure_range_cached(&rope, 0, 50);
    cache.smart_eviction(10);
    assert_eq!(cache.cache_stats().cached_lines, 0);
    assert_eq!(cache.memory_usage(), 64);
}
