//! A sliding-window cache of line-start byte offsets, with a scroll
//! prediction policy and a reusable scratch buffer.
//!
//! The cache's correctness statement, [`LineOffsetCache::valid_for`],
//! says that every populated entry equals the true start of its line in
//! the document: a cached lookup can never disagree with a fresh
//! computation over the same rope.
use vstd::prelude::*;
use crate::rope::Rope;
use crate::text;

verus! {

/// Lines of padding kept around a requested window when the cache grows.
pub const CACHE_PADDING: usize = 200;

/// Base number of lines cached around the viewport by prediction.
pub const BASE_PADDING: usize = 100;

/// Cap on the extra lines cached because of scroll speed.
pub const VELOCITY_PADDING_MAX: usize = 300;

/// How long after a scroll, in milliseconds, prediction stays eager.
pub const PRECACHE_WINDOW_MS: u64 = 500;

/// Which way the viewport has been moving.
#[derive(Debug, Clone, Copy, PartialEq, Eq, Structural)]
pub enum ScrollDirection {
    Up,
    Down,
    Stationary,
}

/// Counters describing how the cache has been doing.
#[derive(Debug, Clone)]
pub struct CacheStats {
    pub hits: u64,
    pub misses: u64,
    pub cached_lines: usize,
    pub total_capacity: usize,
}

/// How many entries of a window are populated.
pub open spec fn count_some(entries: Seq<Option<usize>>) -> int
    decreases entries.len(),
{
    if entries.len() == 0 {
        0
    } else {
        count_some(entries.drop_last()) + if entries.last() is Some {
            1int
        } else {
            0int
        }
    }
}

/// There are never more populated entries than slots.
pub proof fn lemma_count_some_le_len(entries: Seq<Option<usize>>)
    ensures
        0 <= count_some(entries) <= entries.len(),
    decreases entries.len(),
{
    if entries.len() > 0 {
        lemma_count_some_le_len(entries.drop_last());
    }
}

/// A bounded sliding window of line-start offsets, sparse within its
/// range: an entry may be absent, but a present entry is always exact.
pub struct LineOffsetCache {
    cached_offsets: Vec<Option<usize>>,
    range_start: usize,
    range_end: usize,
    current_version: u64,
    total_lines: usize,
    cache_hits: u64,
    cache_misses: u64,
}

impl LineOffsetCache {
    /// The window is coherent: its vector has exactly one slot per line
    /// of the range, and the range stays within the known line count.
    /// Constructors establish it and every method preserves it.
    pub closed spec fn wf(self) -> bool {
        &&& self.range_start <= self.range_end
        &&& self.cached_offsets@.len() == self.range_end - self.range_start
        &&& self.range_end <= self.total_lines || self.range_start == self.range_end
    }

    /// Whether `line` falls inside the cached window.
    pub open spec fn covers(self, line: int) -> bool {
        self.window_start() <= line < self.window_end()
    }

    /// The cached entry for a covered line.
    pub closed spec fn entry(self, line: int) -> Option<usize>
        recommends
            self.covers(line),
    {
        self.cached_offsets@[line - self.range_start]
    }

    /// The line count the cache was last told about.
    pub closed spec fn total_spec(self) -> usize {
        self.total_lines
    }

    /// The start of the cached window.
    pub closed spec fn window_start(self) -> usize {
        self.range_start
    }

    /// The end of the cached window.
    pub closed spec fn window_end(self) -> usize {
        self.range_end
    }

    /// The window's entries, in order.
    pub open spec fn entries_spec(self) -> Seq<Option<usize>> {
        Seq::new(
            (self.window_end() - self.window_start()) as nat,
            |i: int| self.entry(self.window_start() + i),
        )
    }

    /// How many lines the window actually holds.
    pub open spec fn cached_count(self) -> int {
        count_some(self.entries_spec())
    }

    /// Every line of the window that the document has is populated.
    pub open spec fn window_filled(self) -> bool {
        forall|l: int|
            self.window_start() <= l < self.window_end() && l < self.total_spec() ==> (
            #[trigger] self.entry(l)) is Some
    }

    /// A covered line index is a real line index.
    pub broadcast proof fn lemma_covers_nonneg(self, l: int)
        requires
            #[trigger] self.covers(l),
        ensures
            0 <= l < usize::MAX,
    {
    }

    /// Cache correctness against a document: every populated entry is
    /// the byte offset where its line starts.
    pub open spec fn valid_for(self, s: Seq<u8>) -> bool {
        forall|l: int|
            self.covers(l) ==> (#[trigger] self.entry(l) matches Some(o) ==> o
                == text::start_of_line(s, l))
    }

    /// An empty cache for a document with `total_lines` newlines.
    pub fn new(total_lines: usize) -> (r: Self)
        ensures
            r.wf(),
            r.total_spec() == total_lines,
            forall|l: int| !r.covers(l),
            forall|s: Seq<u8>| r.valid_for(s),
    {
        LineOffsetCache {
            cached_offsets: Vec::new(),
            range_start: 0,
            range_end: 0,
            current_version: 0,
            total_lines,
            cache_hits: 0,
            cache_misses: 0,
        }
    }

    /// Whether a line's slot is inside the window.
    fn is_cached(&self, line: usize) -> (r: bool)
        requires
            self.wf(),
        ensures
            r == self.covers(line as int),
    {
        self.range_start <= line && line < self.range_end
    }

    /// The cached entry for a line, if its slot is inside the window.
    fn get_cached_offset(&self, line: usize) -> (r: Option<usize>)
        requires
            self.wf(),
        ensures
            self.covers(line as int) ==> r == self.entry(line as int),
            !self.covers(line as int) ==> r is None,
    {
        if self.range_start <= line && line < self.range_end {
            self.cached_offsets[line - self.range_start]
        } else {
            None
        }
    }

    /// Whether a missed line is close enough to the window that the
    /// window should grow to take it in.
    fn should_expand_cache(&self, line: usize) -> (r: bool)
        requires
            self.wf(),
        ensures
            r == (self.window_start() == self.window_end() || (line < self.window_start()
                && self.window_start() - line < CACHE_PADDING) || (line >= self.window_end()
                && line - self.window_end() < CACHE_PADDING)),
    {
        if self.range_start == self.range_end {
            return true;
        }
        (line < self.range_start && self.range_start - line < CACHE_PADDING) || (line
            >= self.range_end && line - self.range_end < CACHE_PADDING)
    }

    /// The window grown to take in a missed line, with padding.
    fn expand_range_to_include(&self, line: usize) -> (r: (usize, usize))
        requires
            self.wf(),
        ensures
            r.0 <= r.1,
            r.1 <= self.total_spec() || r.0 == r.1,
            r.0 <= line,
    {
        if self.range_start == self.range_end {
            let start = if line >= CACHE_PADDING {
                line - CACHE_PADDING
            } else {
                0
            };
            let end = line.saturating_add(CACHE_PADDING);
            let end = if end > self.total_lines {
                self.total_lines
            } else {
                end
            };
            let start = if start > end {
                end
            } else {
                start
            };
            return (start, end);
        }
        let start = if line < self.range_start {
            if line >= CACHE_PADDING {
                line - CACHE_PADDING
            } else {
                0
            }
        } else {
            self.range_start
        };
        let end = if line >= self.range_end {
            let e = line.saturating_add(CACHE_PADDING);
            if e > self.total_lines {
                self.total_lines
            } else {
                e
            }
        } else {
            self.range_end
        };
        let start = if start > end {
            end
        } else {
            start
        };
        (start, end)
    }

    /// A requested window widened by the padding, clamped to the lines
    /// the document has.
    fn expand_range_for_caching(&self, start: usize, end: usize) -> (r: (usize, usize))
        ensures
            r.0 <= r.1,
            r.1 <= self.total_spec() || r.0 == r.1,
            r.0 <= start,
            end <= self.total_spec() ==> r.1 >= end,
    {
        let s = if start >= CACHE_PADDING {
            start - CACHE_PADDING
        } else {
            0
        };
        let e = end.saturating_add(CACHE_PADDING);
        let e = if e > self.total_lines {
            self.total_lines
        } else {
            e
        };
        let s = if s > e {
            e
        } else {
            s
        };
        (s, e)
    }

    /// Make sure every line of `[start, end)` the document has is in the
    /// window, bulk-computing offsets for the widened window on a miss.
    pub fn ensure_range_cached(&mut self, rope: &Rope, start: usize, end: usize)
        requires
            old(self).wf(),
            old(self).valid_for(rope@),
        ensures
            final(self).wf(),
            final(self).valid_for(rope@),
            final(self).total_spec() == old(self).total_spec(),
            !(start >= old(self).window_start() && end
                <= old(self).window_end()) ==> final(self).window_filled(),
            !(start >= old(self).window_start() && end <= old(self).window_end()) ==> ((start
                < old(self).total_spec() ==> final(self).window_start() <= start) && (end
                <= old(self).total_spec() ==> final(self).window_end() >= end)),
    {
        if start >= self.range_start && end <= self.range_end {
            return;
        }
        let (ns, ne) = self.expand_range_for_caching(start, end);
        let mut new_offsets: Vec<Option<usize>> = Vec::new();
        let mut l = ns;
        while l < ne
            invariant
                ns <= l <= ne,
                new_offsets@.len() == l - ns,
                forall|i: int|
                    0 <= i < new_offsets@.len() ==> ((#[trigger] new_offsets@[i]) matches Some(o)
                        ==> o == text::start_of_line(rope@, ns + i)),
                forall|i: int|
                    0 <= i < new_offsets@.len() ==> (ns + i < self.total_lines <==> (
                    #[trigger] new_offsets@[i]) is Some),
                self == old(self),
            decreases ne - l,
        {
            if l < self.total_lines {
                let o = rope.line_to_byte(l);
                new_offsets.push(Some(o));
            } else {
                new_offsets.push(None);
            }
            l += 1;
        }
        self.range_start = ns;
        self.range_end = ne;
        self.cached_offsets = new_offsets;
        self.current_version = self.current_version.wrapping_add(1);
    }

    /// Resolve a batch of lines into the scratch buffer: cached entries
    /// are used as they stand, misses are computed and may grow the
    /// window. Every returned offset is the true start of its line.
    pub fn get_offsets_zero_alloc<'a>(
        &mut self,
        lines: &[usize],
        rope: &Rope,
        reusable_buffer: &'a mut ReusableBuffer,
    ) -> (r: &'a [usize])
        requires
            old(self).wf(),
            old(self).valid_for(rope@),
        ensures
            final(self).wf(),
            final(self).valid_for(rope@),
            final(self).total_spec() == old(self).total_spec(),
            r@.len() == lines@.len(),
            forall|i: int|
                0 <= i < lines@.len() ==> #[trigger] r@[i] == text::start_of_line(
                    rope@,
                    lines@[i] as int,
                ),
    {
        reusable_buffer.buffer.clear();
        let mut i: usize = 0;
        while i < lines.len()
            invariant
                self.wf(),
                self.valid_for(rope@),
                self.total_spec() == old(self).total_spec(),
                0 <= i <= lines@.len(),
                reusable_buffer.buffer@.len() == i,
                forall|j: int|
                    0 <= j < i ==> #[trigger] reusable_buffer.buffer@[j] == text::start_of_line(
                        rope@,
                        lines@[j] as int,
                    ),
            decreases lines@.len() - i,
        {
            let line = lines[i];
            let mut resolved: Option<usize> = None;
            if self.is_cached(line) {
                resolved = self.get_cached_offset(line);
            }
            match resolved {
                Some(offset) => {
                    reusable_buffer.buffer.push(offset);
                    let ghost pre = *self;
                    self.cache_hits = self.cache_hits.wrapping_add(1);
                    proof {
                        assert forall|l: int| self.covers(l) implies #[trigger] self.entry(l)
                            == pre.entry(l) by {
                            assert(self.cached_offsets@ == pre.cached_offsets@);
                        };
                    }
                },
                None => {
                    let offset = rope.line_to_byte(line);
                    self.cache_miss_calculate(line, offset, rope);
                    reusable_buffer.buffer.push(offset);
                    let ghost pre = *self;
                    self.cache_misses = self.cache_misses.wrapping_add(1);
                    proof {
                        assert forall|l: int| self.covers(l) implies #[trigger] self.entry(l)
                            == pre.entry(l) by {
                            assert(self.cached_offsets@ == pre.cached_offsets@);
                        };
                    }
                },
            }
            i += 1;
        }
        reusable_buffer.buffer.as_slice()
    }

    /// On a miss, grow the window to take the line in if it is close.
    fn cache_miss_calculate(&mut self, line: usize, offset: usize, rope: &Rope)
        requires
            old(self).wf(),
            old(self).valid_for(rope@),
        ensures
            final(self).wf(),
            final(self).valid_for(rope@),
            final(self).total_spec() == old(self).total_spec(),
    {
        if self.should_expand_cache(line) {
            let (ns, ne) = self.expand_range_to_include(line);
            self.ensure_range_cached(rope, ns, ne);
        }
    }

    /// Clear the entries of the listed lines; everything else stays.
    pub fn invalidate_lines(&mut self, lines: &[usize])
        requires
            old(self).wf(),
        ensures
            final(self).wf(),
            final(self).total_spec() == old(self).total_spec(),
            final(self).window_start() == old(self).window_start(),
            final(self).window_end() == old(self).window_end(),
            forall|l: int|
                final(self).covers(l) ==> #[trigger] final(self).entry(l) == (if lines@.contains(
                    l as usize,
                ) {
                    None
                } else {
                    old(self).entry(l)
                }),
    {
        let mut i: usize = 0;
        while i < lines.len()
            invariant
                self.wf(),
                self.total_spec() == old(self).total_spec(),
                self.window_start() == old(self).window_start(),
                self.window_end() == old(self).window_end(),
                0 <= i <= lines@.len(),
                forall|l: int|
                    self.covers(l) ==> #[trigger] self.entry(l) == (if lines@.take(i as int)
                        .contains(l as usize) {
                        None
                    } else {
                        old(self).entry(l)
                    }),
            decreases lines@.len() - i,
        {
            let line = lines[i];
            let ghost pre = *self;
            proof {
                assert(lines@.take(i + 1) =~= lines@.take(i as int).push(lines@[i as int]));
                assert(lines@.take(i + 1)[i as int] == lines@[i as int]);
                assert(lines@.take(i + 1).contains(lines@[i as int]));
            }
            if self.range_start <= line && line < self.range_end {
                let idx = line - self.range_start;
                self.cached_offsets[idx] = None;
            }
            proof {
                assert(self.range_start == pre.range_start && self.range_end == pre.range_end);
                assert forall|l: int| self.covers(l) implies #[trigger] self.entry(l) == (
                if lines@.take(i + 1).contains(l as usize) {
                    None
                } else {
                    old(self).entry(l)
                }) by {
                    if l == line as int {
                        assert(self.entry(l) is None);
                    } else {
                        assert(self.entry(l) == pre.entry(l));
                        if lines@.take(i + 1).contains(l as usize) {
                            let j = choose|j: int|
                                0 <= j < lines@.take(i + 1).len() && #[trigger] lines@.take(
                                    i + 1,
                                )[j] == (l as usize);
                            assert(j < i);
                            assert(lines@.take(i as int)[j] == l as usize);
                            assert(lines@.take(i as int).contains(l as usize));
                        } else {
                            assert(!lines@.take(i as int).contains(l as usize)) by {
                                if lines@.take(i as int).contains(l as usize) {
                                    let j = choose|j: int|
                                        0 <= j < lines@.take(i as int).len() && #[trigger] lines@.take(
                                            i as int,
                                        )[j] == (l as usize);
                                    assert(lines@.take(i + 1)[j] == l as usize);
                                    assert(lines@.take(i + 1).contains(l as usize));
                                }
                            }
                        }
                    }
                };
            }
            i += 1;
        }
        let ghost done = *self;
        self.current_version = self.current_version.wrapping_add(1);
        proof {
            assert(lines@.take(lines@.len() as int) =~= lines@);
            assert forall|l: int| self.covers(l) implies #[trigger] self.entry(l) == done.entry(
                l,
            ) by {
                assert(self.cached_offsets@ == done.cached_offsets@);
            };
        }
    }

    /// Clear every entry at or past `start_line`: after an edit there,
    /// those lines' offsets may have shifted; earlier lines are untouched.
    pub fn invalidate_from(&mut self, start_line: usize)
        requires
            old(self).wf(),
        ensures
            final(self).wf(),
            final(self).total_spec() == old(self).total_spec(),
            final(self).window_start() == old(self).window_start(),
            final(self).window_end() == old(self).window_end(),
            forall|l: int|
                final(self).covers(l) ==> #[trigger] final(self).entry(l) == (if l
                    >= start_line {
                    None
                } else {
                    old(self).entry(l)
                }),
    {
        let from = if start_line > self.range_start {
            start_line
        } else {
            self.range_start
        };
        let mut l = from;
        while l < self.range_end
            invariant
                self.wf(),
                self.total_spec() == old(self).total_spec(),
                self.window_start() == old(self).window_start(),
                self.window_end() == old(self).window_end(),
                from <= l,
                from == if start_line > self.window_start() {
                    start_line as int
                } else {
                    self.window_start() as int
                },
                forall|j: int|
                    self.covers(j) ==> #[trigger] self.entry(j) == (if from <= j < l {
                        None
                    } else {
                        old(self).entry(j)
                    }),
            decreases self.window_end() - l,
        {
            let idx = l - self.range_start;
            let ghost pre = *self;
            self.cached_offsets[idx] = None;
            proof {
                assert(self.range_start == pre.range_start && self.range_end == pre.range_end);
                assert forall|j: int| self.covers(j) implies #[trigger] self.entry(j) == (
                if from <= j < l + 1 {
                    None
                } else {
                    old(self).entry(j)
                }) by {
                    if j == l {
                        assert(self.entry(j) is None);
                    } else {
                        assert(self.entry(j) == pre.entry(j));
                    }
                };
            }
            l += 1;
        }
        let ghost done = *self;
        self.current_version = self.current_version.wrapping_add(1);
        proof {
            assert forall|j: int| self.covers(j) implies #[trigger] self.entry(j) == done.entry(
                j,
            ) by {
                assert(self.cached_offsets@ == done.cached_offsets@);
            };
        }
    }

    /// Drop every cached entry.
    pub fn invalidate_all(&mut self)
        ensures
            final(self).wf(),
            final(self).total_spec() == old(self).total_spec(),
            forall|l: int| !final(self).covers(l),
            forall|s: Seq<u8>| final(self).valid_for(s),
    {
        self.range_start = 0;
        self.range_end = 0;
        self.cached_offsets = Vec::new();
        self.current_version = self.current_version.wrapping_add(1);
    }

    /// If the window exceeds the ceiling, drop it whole and let it
    /// rebuild; coarse all-or-nothing eviction, not least-recently-used.
    pub fn smart_eviction(&mut self, max_cached_lines: usize)
        requires
            old(self).wf(),
        ensures
            final(self).wf(),
            final(self).total_spec() == old(self).total_spec(),
            forall|s: Seq<u8>| old(self).valid_for(s) ==> final(self).valid_for(s),
            old(self).window_end() - old(self).window_start() > max_cached_lines
                ==> final(self).window_start() == final(self).window_end(),
            old(self).window_end() - old(self).window_start() <= max_cached_lines
                ==> (final(self).window_start() == old(self).window_start()
                && final(self).window_end() == old(self).window_end() && (forall|l: int|
                final(self).covers(l) ==> #[trigger] final(self).entry(l) == old(self).entry(l))),
    {
        if self.cached_offsets.len() > max_cached_lines {
            if self.range_end - self.range_start > max_cached_lines {
                self.range_start = 0;
                self.range_end = 0;
                self.cached_offsets = Vec::new();
                self.current_version = self.current_version.wrapping_add(1);
            }
        }
    }

    /// Re-pack the window's storage without changing its contents.
    pub fn optimize_memory(&mut self)
        requires
            old(self).wf(),
        ensures
            final(self).wf(),
            final(self).total_spec() == old(self).total_spec(),
            final(self).window_start() == old(self).window_start(),
            final(self).window_end() == old(self).window_end(),
            forall|l: int|
                final(self).covers(l) ==> #[trigger] final(self).entry(l) == old(self).entry(l),
    {
        let n = self.cached_offsets.len();
        let mut packed: Vec<Option<usize>> = Vec::with_capacity(n);
        let mut i: usize = 0;
        while i < n
            invariant
                n == self.cached_offsets@.len(),
                self == old(self),
                0 <= i <= n,
                packed@.len() == i,
                forall|j: int| 0 <= j < i ==> #[trigger] packed@[j] == self.cached_offsets@[j],
            decreases n - i,
        {
            packed.push(self.cached_offsets[i]);
            i += 1;
        }
        self.cached_offsets = packed;
    }

    /// Copy the window to a new range, keeping entries that fall inside.
    #[allow(dead_code)]
    fn ensure_range_cached_impl(&mut self, start: usize, end: usize)
        requires
            old(self).wf(),
            start <= end,
            end <= old(self).total_spec() || start == end,
        ensures
            final(self).wf(),
            final(self).total_spec() == old(self).total_spec(),
            forall|s: Seq<u8>| old(self).valid_for(s) ==> final(self).valid_for(s),
    {
        let mut new_offsets: Vec<Option<usize>> = Vec::new();
        let mut l = start;
        while l < end
            invariant
                start <= l <= end,
                new_offsets@.len() == l - start,
                self == old(self),
                self.wf(),
                forall|i: int|
                    0 <= i < new_offsets@.len() ==> (#[trigger] new_offsets@[i]) == (
                    if self.covers(start + i) {
                        self.entry(start + i)
                    } else {
                        None
                    }),
            decreases end - l,
        {
            let e = self.get_cached_offset(l);
            new_offsets.push(e);
            l += 1;
        }
        self.range_start = start;
        self.range_end = end;
        self.cached_offsets = new_offsets;
    }

    /// Tell the cache the document's line count changed; the window is
    /// trimmed so it never reaches past the end.
    pub fn update_line_count(&mut self, new_total_lines: usize)
        requires
            old(self).wf(),
        ensures
            final(self).wf(),
            final(self).total_spec() == new_total_lines,
            forall|l: int|
                final(self).covers(l) ==> old(self).covers(l) && #[trigger] final(self).entry(l)
                    == old(self).entry(l),
    {
        self.total_lines = new_total_lines;
        if self.range_end > new_total_lines {
            if self.range_start > new_total_lines {
                self.range_start = 0;
                self.range_end = 0;
                self.cached_offsets = Vec::new();
            } else {
                let new_len = new_total_lines - self.range_start;
                let mut kept: Vec<Option<usize>> = Vec::new();
                let mut i: usize = 0;
                while i < new_len
                    invariant
                        self.cached_offsets@ == old(self).cached_offsets@,
                        self.range_start == old(self).range_start,
                        self.range_end == old(self).range_end,
                        new_len == new_total_lines - self.range_start,
                        new_len <= self.cached_offsets@.len(),
                        0 <= i <= new_len,
                        kept@.len() == i,
                        forall|j: int| 0 <= j < i ==> #[trigger] kept@[j] == self.cached_offsets@[j],
                    decreases new_len - i,
                {
                    kept.push(self.cached_offsets[i]);
                    i += 1;
                }
                self.cached_offsets = kept;
                self.range_end = new_total_lines;
            }
        }
        self.current_version = self.current_version.wrapping_add(1);
    }

    /// Overwrite the hit/miss counters, e.g. to carry them across loads.
    pub fn set_cache_stats(&mut self, hits: u64, misses: u64)
        requires
            old(self).wf(),
        ensures
            final(self).wf(),
            final(self).total_spec() == old(self).total_spec(),
            final(self).window_start() == old(self).window_start(),
            final(self).window_end() == old(self).window_end(),
            forall|l: int|
                final(self).covers(l) ==> #[trigger] final(self).entry(l) == old(self).entry(l),
    {
        self.cache_hits = hits;
        self.cache_misses = misses;
    }

    /// Hit and miss counters, and how full the window is.
    pub fn cache_stats(&self) -> (r: CacheStats)
        requires
            self.wf(),
        ensures
            r.cached_lines == self.cached_count(),
            r.total_capacity == self.window_end() - self.window_start(),
    {
        let n = self.cached_offsets.len();
        let ghost entries = self.entries_spec();
        proof {
            assert(entries =~= self.cached_offsets@);
        }
        let mut cached: usize = 0;
        let mut i: usize = 0;
        while i < n
            invariant
                n == self.cached_offsets@.len(),
                0 <= i <= n,
                cached <= i,
                cached == count_some(self.cached_offsets@.take(i as int)),
            decreases n - i,
        {
            proof {
                assert(self.cached_offsets@.take(i + 1).drop_last() =~= self.cached_offsets@.take(
                    i as int,
                ));
                assert(self.cached_offsets@.take(i + 1).last() == self.cached_offsets@[i as int]);
            }
            if self.cached_offsets[i].is_some() {
                cached += 1;
            }
            i += 1;
        }
        proof {
            assert(self.cached_offsets@.take(n as int) =~= self.cached_offsets@);
        }
        CacheStats {
            hits: self.cache_hits,
            misses: self.cache_misses,
            cached_lines: cached,
            total_capacity: n,
        }
    }

    /// A rough estimate of the cache's memory: a fixed overhead plus one
    /// machine word pair per slot, saturating at the address space.
    pub fn memory_usage(&self) -> (r: usize)
        requires
            self.wf(),
        ensures
            r == if 64 + (self.window_end() - self.window_start()) * 16 <= usize::MAX {
                (64 + (self.window_end() - self.window_start()) * 16) as int
            } else {
                usize::MAX as int
            },
    {
        let n = self.cached_offsets.len();
        let slots = match n.checked_mul(16) {
            Some(v) => v,
            None => usize::MAX,
        };
        slots.saturating_add(64)
    }

    /// If a scroll happened recently, resolve the predicted range ahead
    /// of time.
    pub fn predictive_ensure_cached(
        &mut self,
        rope: &Rope,
        predictive: &PredictiveCache,
        total_lines: usize,
        now_ms: u64,
    )
        requires
            old(self).wf(),
            old(self).valid_for(rope@),
        ensures
            final(self).wf(),
            final(self).valid_for(rope@),
            final(self).total_spec() == old(self).total_spec(),
            ({
                let cs = predictive.clamped_start(total_lines);
                let ce = predictive.clamped_end(total_lines);
                (predictive.precache_due(now_ms) && cs < ce && !(cs
                    >= old(self).window_start() && ce <= old(self).window_end()))
                    ==> (final(self).window_filled()
                    && (cs < final(self).total_spec() ==> final(self).window_start() <= cs)
                    && (ce <= final(self).total_spec() ==> final(self).window_end() >= ce))
            }),
    {
        if predictive.should_precache(now_ms) {
            let (s, e) = predictive.get_precalc_range(total_lines);
            if s < e {
                self.ensure_range_cached(rope, s, e);
            }
        }
    }
}

/// Tracks the viewport and recent scrolling, and predicts which lines
/// to pre-compute: more in the direction the user is heading.
#[derive(Debug, Clone)]
pub struct PredictiveCache {
    pub visible_start: usize,
    pub visible_end: usize,
    pub precalc_start: usize,
    pub precalc_end: usize,
    pub scroll_direction: ScrollDirection,
    pub last_scroll_time_ms: u64,
    pub velocity_padding: usize,
}

impl PredictiveCache {
    /// A fresh policy: nothing visible, nothing predicted.
    pub fn new() -> (r: Self)
        ensures
            r.visible_start == 0 && r.visible_end == 0,
            r.precalc_start == 0 && r.precalc_end == 0,
            r.scroll_direction == ScrollDirection::Stationary,
            r.last_scroll_time_ms == 0,
            r.velocity_padding == 0,
    {
        PredictiveCache {
            visible_start: 0,
            visible_end: 0,
            precalc_start: 0,
            precalc_end: 0,
            scroll_direction: ScrollDirection::Stationary,
            last_scroll_time_ms: 0,
            velocity_padding: 0,
        }
    }

    /// The padding used around the viewport: a base plus a capped share
    /// for scroll speed.
    pub open spec fn total_padding_spec(self) -> int {
        BASE_PADDING + if self.velocity_padding <= VELOCITY_PADDING_MAX {
            self.velocity_padding as int
        } else {
            VELOCITY_PADDING_MAX as int
        }
    }

    /// Record a scroll: where the viewport is, which way it moves, how
    /// fast (as extra lines of padding), and when.
    pub fn update_scroll_prediction(
        &mut self,
        visible_start: usize,
        visible_end: usize,
        direction: ScrollDirection,
        velocity_padding: usize,
        now_ms: u64,
    )
        ensures
            final(self).visible_start == visible_start,
            final(self).visible_end == visible_end,
            final(self).scroll_direction == direction,
            final(self).velocity_padding == velocity_padding,
            final(self).last_scroll_time_ms == now_ms,
            final(self).precalc_start as int == final(self).precalc_range_start_spec(),
            final(self).precalc_end as int == final(self).precalc_range_end_spec(),
    {
        self.visible_start = visible_start;
        self.visible_end = visible_end;
        self.scroll_direction = direction;
        self.velocity_padding = velocity_padding;
        self.last_scroll_time_ms = now_ms;
        let (ps, pe) = self.calculate_precalc_range();
        self.precalc_start = ps;
        self.precalc_end = pe;
    }

    /// Start of the predicted range: further above when scrolling up.
    pub open spec fn precalc_range_start_spec(self) -> int {
        let pad = self.total_padding_spec();
        let back = if self.scroll_direction == ScrollDirection::Up {
            2 * pad
        } else {
            pad
        };
        if self.visible_start >= back {
            self.visible_start - back
        } else {
            0
        }
    }

    /// End of the predicted range: further below when scrolling down.
    pub open spec fn precalc_range_end_spec(self) -> int {
        let pad = self.total_padding_spec();
        let fwd = if self.scroll_direction == ScrollDirection::Down {
            2 * pad
        } else {
            pad
        };
        if self.visible_end + fwd <= usize::MAX {
            self.visible_end + fwd
        } else {
            usize::MAX as int
        }
    }

    /// The range of lines worth pre-computing, biased toward the scroll
    /// direction.
    pub fn calculate_precalc_range(&self) -> (r: (usize, usize))
        ensures
            r.0 as int == self.precalc_range_start_spec(),
            r.1 as int == self.precalc_range_end_spec(),
    {
        let velocity_padding = if self.velocity_padding > VELOCITY_PADDING_MAX {
            VELOCITY_PADDING_MAX
        } else {
            self.velocity_padding
        };
        let total_padding = BASE_PADDING + velocity_padding;
        match self.scroll_direction {
            ScrollDirection::Up => {
                let start = self.visible_start.saturating_sub(2 * total_padding);
                let end = self.visible_end.saturating_add(total_padding);
                (start, end)
            },
            ScrollDirection::Down => {
                let start = self.visible_start.saturating_sub(total_padding);
                let end = self.visible_end.saturating_add(2 * total_padding);
                (start, end)
            },
            ScrollDirection::Stationary => {
                let start = self.visible_start.saturating_sub(total_padding);
                let end = self.visible_end.saturating_add(total_padding);
                (start, end)
            },
        }
    }

    /// Start of the predicted range clamped to the document's lines.
    pub open spec fn clamped_start(self, total_lines: usize) -> int {
        let cap = if total_lines > 0 {
            (total_lines - 1) as int
        } else {
            0int
        };
        if self.precalc_start as int <= cap {
            self.precalc_start as int
        } else {
            cap
        }
    }

    /// End of the predicted range clamped to the document's lines.
    pub open spec fn clamped_end(self, total_lines: usize) -> int {
        if self.precalc_end <= total_lines {
            self.precalc_end as int
        } else {
            total_lines as int
        }
    }

    /// The predicted range clamped to the lines the document has.
    pub fn get_precalc_range(&self, total_lines: usize) -> (r: (usize, usize))
        ensures
            r.0 == self.clamped_start(total_lines),
            r.1 == self.clamped_end(total_lines),
    {
        let cap = if total_lines > 0 {
            total_lines - 1
        } else {
            0
        };
        let start = if self.precalc_start > cap {
            cap
        } else {
            self.precalc_start
        };
        let end = if self.precalc_end > total_lines {
            total_lines
        } else {
            self.precalc_end
        };
        (start, end)
    }

    /// Whether a scroll happened within the recency window.
    pub open spec fn precache_due(self, now_ms: u64) -> bool {
        self.last_scroll_time_ms <= now_ms && now_ms - self.last_scroll_time_ms
            < PRECACHE_WINDOW_MS
    }

    /// Whether a scroll happened within the recency window, so eager
    /// pre-computation is worthwhile.
    pub fn should_precache(&self, now_ms: u64) -> (r: bool)
        ensures
            r == self.precache_due(now_ms),
    {
        self.last_scroll_time_ms <= now_ms && now_ms - self.last_scroll_time_ms
            < PRECACHE_WINDOW_MS
    }
}

/// A scratch buffer reused across batched lookups so that rendering a
/// frame does not allocate.
#[derive(Debug)]
pub struct ReusableBuffer {
    pub buffer: Vec<usize>,
}

impl ReusableBuffer {
    /// A scratch buffer with room for a typical viewport.
    pub fn new() -> (r: Self)
        ensures
            r.buffer@.len() == 0,
    {
        ReusableBuffer { buffer: Vec::with_capacity(1000) }
    }

    /// Take the buffer out, leaving an empty one behind.
    pub fn take(&mut self) -> (r: Vec<usize>)
        ensures
            r@ == old(self).buffer@,
            final(self).buffer@.len() == 0,
    {
        let mut tmp: Vec<usize> = Vec::new();
        std::mem::swap(&mut self.buffer, &mut tmp);
        tmp
    }

    /// Give a buffer back, clearing it but keeping its storage.
    pub fn restore(&mut self, buffer: Vec<usize>)
        ensures
            final(self).buffer@.len() == 0,
    {
        let mut buffer = buffer;
        buffer.clear();
        self.buffer = buffer;
    }
}

impl Default for ReusableBuffer {
    /// The default scratch buffer is empty.
    fn default() -> (r: Self)
        ensures
            r.buffer@.len() == 0,
    {
        ReusableBuffer::new()
    }
}

impl Default for PredictiveCache {
    /// The default policy has seen no viewport and no scrolling.
    fn default() -> (r: Self)
        ensures
            r.visible_start == 0 && r.visible_end == 0,
            r.scroll_direction == ScrollDirection::Stationary,
            r.last_scroll_time_ms == 0,
    {
        PredictiveCache::new()
    }
}

} // verus!
