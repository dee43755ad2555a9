//! A buffer: a rope shared copy-on-write, a line-offset cache kept
//! consistent with it, and point/offset conversion.
//!
//! The buffer's well-formedness ties the cache to the document: every
//! populated cache entry equals a fresh computation over the rope, so a
//! cached lookup can never return a stale offset.
use vstd::prelude::*;
use vstd::utf8::{encode_utf8, is_char_boundary, valid_utf8};
use std::sync::Arc;
use crate::line_cache::{CacheStats, LineOffsetCache, PredictiveCache, ReusableBuffer, ScrollDirection};
use crate::position::{Offset, Point};
use crate::rope::Rope;
use crate::text;

verus! {

broadcast use crate::rope::lemma_rope_view_valid, crate::line_cache::LineOffsetCache::lemma_covers_nonneg;

/// Cached line count above which an edit-time eviction kicks in.
pub const EVICTION_CEILING: usize = 10000;

/// Cached line count the eviction shrinks towards.
pub const EVICTION_TARGET: usize = 5000;

/// A document with cached line geometry. Clones share the rope until one
/// side edits it.
pub struct Buffer {
    rope: Arc<Rope>,
    line_cache: LineOffsetCache,
    reusable_buffer: ReusableBuffer,
    predictive_cache: PredictiveCache,
}

impl View for Buffer {
    type V = Seq<u8>;

    /// The document's UTF-8 bytes.
    closed spec fn view(&self) -> Seq<u8> {
        self.rope@
    }
}

impl Buffer {
    /// The cache agrees with the rope: its window never reaches past the
    /// document's lines and every populated entry is that line's true
    /// start. Constructors establish this; every method keeps it.
    pub closed spec fn wf(self) -> bool {
        &&& self.line_cache.wf()
        &&& self.line_cache.valid_for(self.rope@)
        &&& self.line_cache.total_spec() == text::newline_count(self.rope@)
    }

    /// The line-offset cache, for stating what priming and eviction do.
    pub closed spec fn cache_spec(self) -> LineOffsetCache {
        self.line_cache
    }

    /// The scroll-prediction policy's state.
    pub closed spec fn prediction_spec(self) -> PredictiveCache {
        self.predictive_cache
    }

    /// An empty document.
    pub fn new() -> (r: Buffer)
        ensures
            r.wf(),
            r@ == Seq::<u8>::empty(),
    {
        let rope = Rope::new();
        Buffer {
            rope: Arc::new(rope),
            line_cache: LineOffsetCache::new(0),
            reusable_buffer: ReusableBuffer::new(),
            predictive_cache: PredictiveCache::new(),
        }
    }

    /// A document holding the given text.
    pub fn from_text(text: &str) -> (r: Buffer)
        ensures
            r.wf(),
            r@ == encode_utf8(text@),
    {
        let rope = Rope::from_text(text);
        let line_count = rope.line_count();
        Buffer {
            rope: Arc::new(rope),
            line_cache: LineOffsetCache::new(line_count),
            reusable_buffer: ReusableBuffer::new(),
            predictive_cache: PredictiveCache::new(),
        }
    }

    /// Byte length of the document.
    pub fn len(&self) -> (r: usize)
        ensures
            r == self@.len(),
    {
        (*self.rope).len()
    }

    /// Whether the document is empty.
    pub fn is_empty(&self) -> (r: bool)
        ensures
            r == (self@.len() == 0),
    {
        (*self.rope).is_empty()
    }

    /// Number of lines: one more than the number of newlines, so an
    /// empty document still has one (empty) line.
    pub fn line_count(&self) -> (r: usize)
        ensures
            r == if text::newline_count(self@) < usize::MAX {
                text::newline_count(self@) + 1
            } else {
                usize::MAX as int
            },
    {
        (*self.rope).line_count().saturating_add(1)
    }

    /// The whole document as one string.
    pub fn to_string(&self) -> (r: String)
        ensures
            encode_utf8(r@) == self@,
    {
        (*self.rope).to_string()
    }

    /// Insert text at a byte offset lying on a character boundary. The
    /// cache forgets every line from the first affected one onward;
    /// earlier entries are provably untouched by the edit.
    pub fn insert(&mut self, offset: Offset, new_text: &str)
        requires
            old(self).wf(),
            is_char_boundary(old(self)@, offset.0 as int),
            old(self)@.len() + encode_utf8(new_text@).len() <= usize::MAX,
        ensures
            final(self).wf(),
            final(self)@ == old(self)@.take(offset.0 as int) + encode_utf8(new_text@) + old(self)@.skip(offset.0 as int),
    {
        let ghost s = old(self)@;
        let pos = offset.value();
        proof {
            assert(valid_utf8(self.rope@));
            text::lemma_boundary_le_len(s, pos as int);
        }
        let (line, _col) = (*self.rope).byte_to_line_col(pos);
        self.line_cache.invalidate_from(line);
        let ghost c1 = self.line_cache;
        let mut new_rope = (*self.rope).clone();
        new_rope.insert(pos, new_text);
        let ghost s2 = new_rope@;
        self.rope = Arc::new(new_rope);
        let new_line_count = (*self.rope).line_count();
        self.line_cache.update_line_count(new_line_count);
        proof {
            assert(s2.take(pos as int) =~= s.take(pos as int));
            assert(s2.take(pos as int) == s.take(pos as int));
            assert forall|l: int|
                self.line_cache.covers(l) implies (#[trigger] self.line_cache.entry(l) matches Some(
                o,
            ) ==> o == text::start_of_line(s2, l)) by {
                assert(c1.covers(l) && self.line_cache.entry(l) == c1.entry(l));
                if self.line_cache.entry(l) is Some {
                    assert(l < line);
                    assert(c1.entry(l) == old(self).line_cache.entry(l));
                    assert(old(self).line_cache.entry(l) matches Some(o2) ==> o2
                        == text::start_of_line(s, l));
                    text::lemma_prefix_line_starts(s, s2, pos as int, l);
                    assert(text::start_of_line(s, l) == text::start_of_line(s2, l));
                    assert(self.line_cache.entry(l) matches Some(o2) ==> o2
                        == text::start_of_line(s2, l));
                }
            };
        }
    }

    /// Delete the bytes between two offsets on character boundaries. The
    /// cache forgets every line from the first affected one onward.
    pub fn delete(&mut self, start: Offset, end: Offset)
        requires
            old(self).wf(),
            start.0 <= end.0,
            is_char_boundary(old(self)@, start.0 as int),
            is_char_boundary(old(self)@, end.0 as int),
        ensures
            final(self).wf(),
            final(self)@ == old(self)@.take(start.0 as int) + old(self)@.skip(end.0 as int),
    {
        let ghost s = old(self)@;
        let start_pos = start.value();
        let end_pos = end.value();
        proof {
            assert(valid_utf8(self.rope@));
            text::lemma_boundary_le_len(s, start_pos as int);
            text::lemma_boundary_le_len(s, end_pos as int);
        }
        let (start_line, _) = (*self.rope).byte_to_line_col(start_pos);
        self.line_cache.invalidate_from(start_line);
        let ghost c1 = self.line_cache;
        let mut new_rope = (*self.rope).clone();
        new_rope.delete(start_pos, end_pos);
        let ghost s2 = new_rope@;
        self.rope = Arc::new(new_rope);
        let new_line_count = (*self.rope).line_count();
        self.line_cache.update_line_count(new_line_count);
        proof {
            assert(s2.take(start_pos as int) =~= s.take(start_pos as int));
            assert(s2.take(start_pos as int) == s.take(start_pos as int));
            assert forall|l: int|
                self.line_cache.covers(l) implies (#[trigger] self.line_cache.entry(l) matches Some(
                o,
            ) ==> o == text::start_of_line(s2, l)) by {
                assert(c1.covers(l) && self.line_cache.entry(l) == c1.entry(l));
                if self.line_cache.entry(l) is Some {
                    assert(l < start_line);
                    assert(c1.entry(l) == old(self).line_cache.entry(l));
                    assert(old(self).line_cache.entry(l) matches Some(o2) ==> o2
                        == text::start_of_line(s, l));
                    text::lemma_prefix_line_starts(s, s2, start_pos as int, l);
                    assert(text::start_of_line(s, l) == text::start_of_line(s2, l));
                    assert(self.line_cache.entry(l) matches Some(o2) ==> o2
                        == text::start_of_line(s2, l));
                }
            };
        }
    }

    /// The text of one line, without its newline.
    pub fn line(&self, line_idx: usize) -> (r: Option<String>)
        ensures
            text::line_exists(self@, line_idx as int) ==> (r matches Some(t) && encode_utf8(t@)
                == text::line_bytes(self@, line_idx as int)),
            !text::line_exists(self@, line_idx as int) ==> r is None,
    {
        (*self.rope).line(line_idx)
    }

    /// Resolve several lines' start offsets at once through the cache,
    /// reusing the scratch buffer. Every offset is the line's true start.
    pub fn get_line_offsets_batch(&mut self, lines: &[usize]) -> (r: Vec<usize>)
        requires
            old(self).wf(),
        ensures
            final(self).wf(),
            final(self)@ == old(self)@,
            r@.len() == lines@.len(),
            forall|i: int|
                0 <= i < lines@.len() ==> #[trigger] r@[i] == text::start_of_line(
                    old(self)@,
                    lines@[i] as int,
                ),
    {
        let offsets = self.line_cache.get_offsets_zero_alloc(
            lines,
            &*self.rope,
            &mut self.reusable_buffer,
        );
        let mut out: Vec<usize> = Vec::new();
        let mut i: usize = 0;
        while i < offsets.len()
            invariant
                0 <= i <= offsets@.len(),
                out@.len() == i,
                forall|j: int| 0 <= j < i ==> #[trigger] out@[j] == offsets@[j],
            decreases offsets@.len() - i,
        {
            out.push(offsets[i]);
            i += 1;
        }
        out
    }

    /// Make sure the lines of `[start, end)` are in the cache window:
    /// unless the range already sat inside the window, afterwards the
    /// window reaches over it (clamped to the document's lines) and every
    /// line of the window the document has is populated — with its true
    /// start, by well-formedness.
    pub fn ensure_range_cached(&mut self, start: usize, end: usize)
        requires
            old(self).wf(),
        ensures
            final(self).wf(),
            final(self)@ == old(self)@,
            !(start >= old(self).cache_spec().window_start() && end
                <= old(self).cache_spec().window_end())
                ==> (final(self).cache_spec().window_filled()
                && (start < text::newline_count(old(self)@)
                ==> final(self).cache_spec().window_start() <= start)
                && (end <= text::newline_count(old(self)@)
                ==> final(self).cache_spec().window_end() >= end)),
    {
        self.line_cache.ensure_range_cached(&*self.rope, start, end);
    }

    /// Record a scroll and eagerly cache the predicted range; when the
    /// cache has grown past its ceiling, evict it down.
    pub fn update_scroll_prediction(
        &mut self,
        visible_start: usize,
        visible_end: usize,
        direction: ScrollDirection,
        velocity_padding: usize,
        now_ms: u64,
    )
        requires
            old(self).wf(),
        ensures
            final(self).wf(),
            final(self)@ == old(self)@,
            final(self).prediction_spec().visible_start == visible_start,
            final(self).prediction_spec().visible_end == visible_end,
            final(self).prediction_spec().scroll_direction == direction,
            final(self).prediction_spec().velocity_padding == velocity_padding,
            final(self).prediction_spec().last_scroll_time_ms == now_ms,
            final(self).prediction_spec().precalc_start as int
                == final(self).prediction_spec().precalc_range_start_spec(),
            final(self).prediction_spec().precalc_end as int
                == final(self).prediction_spec().precalc_range_end_spec(),
            final(self).cache_spec().cached_count() <= EVICTION_CEILING,
            ({
                let p = final(self).prediction_spec();
                let total: usize = if text::newline_count(old(self)@) < usize::MAX {
                    (text::newline_count(old(self)@) + 1) as usize
                } else {
                    usize::MAX
                };
                let cs = p.clamped_start(total);
                let ce = p.clamped_end(total);
                (cs < ce && !(cs >= old(self).cache_spec().window_start() && ce
                    <= old(self).cache_spec().window_end()))
                    ==> ((final(self).cache_spec().window_filled()
                    && (cs < text::newline_count(old(self)@)
                    ==> final(self).cache_spec().window_start() <= cs)
                    && (ce <= text::newline_count(old(self)@)
                    ==> final(self).cache_spec().window_end() >= ce))
                    || final(self).cache_spec().window_start()
                        == final(self).cache_spec().window_end())
            }),
    {
        self.predictive_cache.update_scroll_prediction(
            visible_start,
            visible_end,
            direction,
            velocity_padding,
            now_ms,
        );
        let total_lines = self.line_count();
        self.line_cache.predictive_ensure_cached(
            &*self.rope,
            &self.predictive_cache,
            total_lines,
            now_ms,
        );
        let ghost primed = self.line_cache;
        let stats = self.line_cache.cache_stats();
        if stats.cached_lines > EVICTION_CEILING {
            proof {
                crate::line_cache::lemma_count_some_le_len(primed.entries_spec());
            }
            self.line_cache.smart_eviction(EVICTION_TARGET);
            proof {
                assert(self.line_cache.entries_spec() =~= Seq::<Option<usize>>::empty());
                assert(crate::line_cache::count_some(Seq::<Option<usize>>::empty()) == 0);
            }
        }
    }

    /// The byte offset of a point: the start of its row plus the bytes
    /// of the first `column` characters of that line. Out-of-range rows
    /// and columns clamp to the nearest valid position; never panics.
    pub fn point_to_offset(&self, point: Point) -> (r: Offset)
        ensures
            r.0 == text::point_offset(self@, point.row as int, point.column as int),
    {
        let ghost s = self@;
        let total_len = self.len();
        proof {
            text::lemma_newlines_sound(s);
        }
        let line_start = (*self.rope).line_to_byte(point.row);
        match (*self.rope).line(point.row) {
            Some(line_text) => {
                let bytes = line_text.as_str().as_bytes();
                let ghost lb = text::line_bytes(s, point.row as int);
                proof {
                    assert(bytes@ == lb);
                }
                let n = bytes.len();
                let mut i: usize = 0;
                let mut remaining = point.column;
                proof {
                    assert(lb.skip(0) =~= lb);
                }
                while i < n && (bytes[i] >= 128 && bytes[i] <= 191 || remaining > 0)
                    invariant
                        bytes@ == lb,
                        n == lb.len(),
                        0 <= i <= n,
                        remaining <= point.column,
                        text::first_chars_len(lb, point.column as int) == i
                            + text::first_chars_len(lb.skip(i as int), remaining as int),
                    decreases n - i,
                {
                    proof {
                        assert(lb.skip(i as int).first() == lb[i as int]);
                        assert(lb.skip(i as int).drop_first() =~= lb.skip(i + 1));
                    }
                    let b = bytes[i];
                    if !(b >= 128 && b <= 191) {
                        remaining -= 1;
                    }
                    i += 1;
                }
                proof {
                    if i == n {
                        assert(lb.skip(n as int) =~= Seq::<u8>::empty());
                    }
                    assert(text::first_chars_len(lb, point.column as int) == i);
                    assert(line_start + lb.len() == text::end_of_line(s, point.row as int));
                    assert(text::end_of_line(s, point.row as int) <= s.len());
                    assert(line_start + i <= total_len);
                }
                Offset(line_start + i)
            },
            None => {
                proof {
                    text::lemma_newlines_sound(s);
                    assert(text::start_of_line(s, point.row as int) == text::end_of_line(
                        s,
                        point.row as int,
                    ));
                    assert(text::line_bytes(s, point.row as int) =~= Seq::<u8>::empty());
                    assert(text::first_chars_len(Seq::<u8>::empty(), point.column as int) == 0);
                }
                Offset(line_start)
            },
        }
    }

    /// The point of a byte offset: its line, and the characters between
    /// the line's start and the offset. Offsets past the end clamp to
    /// the end of the document; never panics.
    pub fn offset_to_point(&self, offset: Offset) -> (r: Point)
        ensures
            offset.0 <= self@.len() ==> r.row == text::line_at(self@, offset.0 as int) && r.column
                == text::column_at(self@, offset.0 as int),
            offset.0 > self@.len() ==> r.row == text::line_at(self@, self@.len() as int)
                && r.column == text::column_at(self@, self@.len() as int),
    {
        let len = self.len();
        let pos = if offset.value() > len {
            len
        } else {
            offset.value()
        };
        let (line, col) = (*self.rope).byte_to_line_col(pos);
        Point::new(line, col)
    }

    /// All lines of the document, in order, without their newlines.
    pub fn lines(&self) -> (r: Vec<String>)
        requires
            text::newline_count(self@) < usize::MAX,
        ensures
            r@.len() == text::newline_count(self@) + if text::line_exists(
                self@,
                text::newline_count(self@),
            ) {
                1int
            } else {
                0int
            },
            forall|i: int|
                0 <= i < r@.len() ==> encode_utf8((#[trigger] r@[i])@) == text::line_bytes(
                    self@,
                    i,
                ),
    {
        let ghost s = self@;
        let total_len = self.len();
        proof {
            text::lemma_newline_count_le_len(s);
        }
        let total = self.line_count();
        let mut out: Vec<String> = Vec::new();
        let mut i: usize = 0;
        while i < total
            invariant
                s == self@,
                total == if text::newline_count(s) < usize::MAX {
                    text::newline_count(s) + 1
                } else {
                    usize::MAX as int
                },
                text::newline_count(s) <= s.len() <= usize::MAX,
                0 <= i <= total,
                i <= text::newline_count(s) + 1,
                out@.len() == if i <= text::newline_count(s) {
                    i as int
                } else {
                    text::newline_count(s) + if text::line_exists(s, text::newline_count(s)) {
                        1int
                    } else {
                        0int
                    }
                },
                forall|j: int|
                    0 <= j < out@.len() ==> encode_utf8((#[trigger] out@[j])@) == text::line_bytes(
                        s,
                        j,
                    ),
            decreases total - i,
        {
            match self.line(i) {
                Some(t) => {
                    proof {
                        assert(text::line_exists(s, i as int));
                    }
                    out.push(t);
                },
                None => {
                    proof {
                        assert(!text::line_exists(s, i as int));
                        assert(i as int == text::newline_count(s));
                    }
                },
            }
            i += 1;
        }
        proof {
            if text::newline_count(s) < usize::MAX {
                assert(total == text::newline_count(s) + 1);
            } else {
                assert(s.len() == usize::MAX);
            }
        }
        out
    }

    /// The byte range of one line, without its newline.
    pub fn line_byte_range(&self, line_idx: usize) -> (r: Option<(usize, usize)>)
        ensures
            text::line_exists(self@, line_idx as int) ==> r == Some(
                (
                    text::start_of_line(self@, line_idx as int) as usize,
                    text::end_of_line(self@, line_idx as int) as usize,
                ),
            ),
            !text::line_exists(self@, line_idx as int) ==> r is None,
    {
        (*self.rope).line_byte_range(line_idx)
    }

    /// Extract the text of a byte range.
    pub fn slice_bytes(&self, start: usize, end: usize) -> (r: String)
        requires
            start < end && start < self@.len() ==> is_char_boundary(self@, start as int)
                && is_char_boundary(
                self@,
                if end <= self@.len() {
                    end as int
                } else {
                    self@.len() as int
                },
            ),
        ensures
            start >= end || start >= self@.len() ==> r@.len() == 0,
            start < end && start < self@.len() ==> encode_utf8(r@) == self@.subrange(
                start as int,
                if end <= self@.len() {
                    end as int
                } else {
                    self@.len() as int
                },
            ),
    {
        (*self.rope).slice_bytes(start, end)
    }

    /// The underlying rope.
    pub fn rope(&self) -> (r: &Rope)
        ensures
            r@ == self@,
    {
        &*self.rope
    }

    /// Hit and miss counters and cache occupancy.
    pub fn cache_stats(&self) -> (r: CacheStats)
        requires
            self.wf(),
    {
        self.line_cache.cache_stats()
    }
}

/// Any buffer's bytes are valid UTF-8.
pub broadcast proof fn lemma_buffer_view_valid(b: Buffer)
    ensures
        #[trigger] valid_utf8(b@),
{
    assert(valid_utf8(b.rope@));
}

impl Default for Buffer {
    /// The default buffer is empty.
    fn default() -> (r: Self)
        ensures
            r.wf(),
            r@ == Seq::<u8>::empty(),
    {
        Buffer::new()
    }
}

impl Clone for Buffer {
    /// Cloning shares the rope — O(1) until one side edits — and starts
    /// the copy with a cold cache.
    fn clone(&self) -> (r: Self)
        ensures
            r@ == self@,
            r.wf(),
    {
        let line_count = (*self.rope).line_count();
        Buffer {
            rope: self.rope.clone(),
            line_cache: LineOffsetCache::new(line_count),
            reusable_buffer: ReusableBuffer::new(),
            predictive_cache: PredictiveCache::new(),
        }
    }
}

} // verus!
