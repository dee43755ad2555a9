//! The rope: a document stored as an aggregation tree of text chunks.
//!
//! Its view is the UTF-8 byte sequence of the whole document. Length and
//! line count come from the tree's cached summary in O(1); line/byte
//! conversions stream over chunks and use each chunk's cached newline
//! offsets; edits splice chunk lists and rebuild the tree in one pass.
use vstd::prelude::*;
use vstd::utf8::{encode_utf8, is_char_boundary, valid_utf8};
use vstd::string::StringExecFns;
use crate::chunk::{Chunk, TextMetrics};
use crate::text;
use crate::tree::{fold_ok, fold_summaries, Item, Summary, SumTree};

verus! {

broadcast use vstd::utf8::encode_utf8_valid_utf8, crate::chunk::lemma_chunk_view_valid;

/// Bytes a chunk should hold at most when text is cut into chunks.
pub const CHUNK_SIZE: usize = 1024;

/// The bytes of a chunk sequence, concatenated in order.
pub open spec fn chunks_bytes(items: Seq<Chunk>) -> Seq<u8>
    decreases items.len(),
{
    if items.len() == 0 {
        Seq::empty()
    } else {
        chunks_bytes(items.drop_last()) + items.last()@
    }
}

/// A chunk sequence whose summaries can be folded without overflow and
/// whose chunks each fit in memory.
pub open spec fn chunks_ok(items: Seq<Chunk>) -> bool {
    &&& fold_ok(items)
    &&& forall|k: int| 0 <= k < items.len() ==> (#[trigger] items[k])@.len() <= usize::MAX
}

/// Appending a chunk appends its bytes.
pub proof fn lemma_chunks_bytes_push(items: Seq<Chunk>, c: Chunk)
    ensures
        chunks_bytes(items.push(c)) == chunks_bytes(items) + c@,
{
    assert(items.push(c).drop_last() =~= items);
    assert(items.push(c).last() == c);
}

/// The bytes of a concatenation of chunk sequences concatenate.
pub proof fn lemma_chunks_bytes_concat(a: Seq<Chunk>, b: Seq<Chunk>)
    ensures
        chunks_bytes(a + b) == chunks_bytes(a) + chunks_bytes(b),
    decreases b.len(),
{
    if b.len() == 0 {
        assert(a + b =~= a);
        assert(chunks_bytes(a) + chunks_bytes(b) =~= chunks_bytes(a));
    } else {
        lemma_chunks_bytes_concat(a, b.drop_last());
        assert((a + b).drop_last() =~= a + b.drop_last());
        assert((a + b).last() == b.last());
        assert(chunks_bytes(a + b) =~= chunks_bytes(a) + chunks_bytes(b));
    }
}

/// One more chunk of a prefix adds that chunk's bytes.
pub proof fn lemma_chunks_bytes_take_step(items: Seq<Chunk>, k: int)
    requires
        0 <= k < items.len(),
    ensures
        chunks_bytes(items.take(k + 1)) == chunks_bytes(items.take(k)) + items[k]@,
{
    assert(items.take(k + 1).drop_last() =~= items.take(k));
    assert(items.take(k + 1).last() == items[k]);
}

/// Chunk sequences with the same bytes per chunk have the same bytes,
/// the same summary fold, and the same overflow behaviour.
pub proof fn lemma_chunks_congruent(a: Seq<Chunk>, b: Seq<Chunk>)
    requires
        a.len() == b.len(),
        forall|k: int| 0 <= k < a.len() ==> (#[trigger] a[k])@ == b[k]@,
    ensures
        chunks_bytes(a) == chunks_bytes(b),
        fold_summaries(a) == fold_summaries(b),
        fold_ok(a) == fold_ok(b),
        chunks_ok(a) == chunks_ok(b),
    decreases a.len(),
{
    if a.len() > 0 {
        assert(forall|k: int|
            0 <= k < a.drop_last().len() ==> (#[trigger] a.drop_last()[k])@ == b.drop_last()[k]@);
        lemma_chunks_congruent(a.drop_last(), b.drop_last());
        assert(a.last()@ == b.last()@);
        assert(a.last().summarize_spec() == b.last().summarize_spec());
        assert(chunks_bytes(a) =~= chunks_bytes(b));
    } else {
        assert(chunks_bytes(a) =~= chunks_bytes(b));
    }
    assert(chunks_ok(a) ==> chunks_ok(b)) by {
        if chunks_ok(a) {
            assert forall|k: int| 0 <= k < b.len() implies (#[trigger] b[k])@.len()
                <= usize::MAX by {
                assert(a[k]@ == b[k]@);
                assert(a[k]@.len() <= usize::MAX);
            };
        }
    }
    assert(chunks_ok(b) ==> chunks_ok(a)) by {
        if chunks_ok(b) {
            assert forall|k: int| 0 <= k < a.len() implies (#[trigger] a[k])@.len()
                <= usize::MAX by {
                assert(a[k]@ == b[k]@);
                assert(b[k]@.len() <= usize::MAX);
            };
        }
    }
}

/// A clone of a chunk has the same bytes.
pub proof fn lemma_cloned_chunk(a: Chunk, b: Chunk)
    requires
        cloned::<Chunk>(a, b),
    ensures
        b@ == a@,
{
}

/// The cached fold over well-formed chunks is exactly the byte length
/// and newline count of their bytes.
pub proof fn lemma_fold_is_metrics(items: Seq<Chunk>)
    requires
        chunks_ok(items),
    ensures
        fold_summaries(items).len == chunks_bytes(items).len(),
        fold_summaries(items).lines == text::newline_count(chunks_bytes(items)),
        chunks_bytes(items).len() <= usize::MAX,
    decreases items.len(),
{
    if items.len() == 0 {
        assert(chunks_bytes(items) =~= Seq::<u8>::empty());
    } else {
        let d = items.drop_last();
        let c = items.last();
        assert(chunks_ok(d)) by {
            assert(forall|k: int|
                0 <= k < d.len() ==> (#[trigger] d[k])@ == (#[trigger] items[k])@);
        }
        lemma_fold_is_metrics(d);
        text::lemma_newlines_concat(chunks_bytes(d), c@);
        text::lemma_newline_count_le_len(c@);
        text::lemma_newline_count_le_len(chunks_bytes(d));
        assert(c@.len() <= usize::MAX);
        assert(c.summarize_spec().len == c@.len());
        assert(c.summarize_spec().lines == text::newline_count(c@));
    }
}

/// Append one chunk to a list, keeping the list's fold in range.
fn push_chunk(out: &mut Vec<Chunk>, c: Chunk)
    requires
        chunks_ok(old(out)@),
        chunks_bytes(old(out)@).len() + c@.len() <= usize::MAX,
    ensures
        final(out)@ == old(out)@.push(c),
        chunks_ok(final(out)@),
        chunks_bytes(final(out)@) == chunks_bytes(old(out)@) + c@,
{
    let cl = c.len();
    proof {
        lemma_fold_is_metrics(out@);
        text::lemma_newline_count_le_len(c@);
        text::lemma_newline_count_le_len(chunks_bytes(out@));
        lemma_chunks_bytes_push(out@, c);
        assert(out@.push(c).drop_last() =~= out@);
        assert(out@.push(c).last() == c);
        assert(fold_ok(out@.push(c)));
        assert(forall|k: int|
            0 <= k < out@.len() ==> (#[trigger] out@.push(c)[k])@ == out@[k]@);
        assert(forall|k: int|
            0 <= k < out@.push(c).len() ==> (#[trigger] out@.push(c)[k])@.len() <= usize::MAX);
    }
    out.push(c);
}

/// Cut `rest` into chunks of up to [`CHUNK_SIZE`] bytes, never splitting
/// a character, and append them to `out`.
fn append_text_chunks(out: &mut Vec<Chunk>, rest: &str)
    requires
        chunks_ok(old(out)@),
        chunks_bytes(old(out)@).len() + encode_utf8(rest@).len() <= usize::MAX,
    ensures
        chunks_ok(final(out)@),
        chunks_bytes(final(out)@) == chunks_bytes(old(out)@) + encode_utf8(rest@),
{
    let ghost base = chunks_bytes(old(out)@);
    let ghost total = base + encode_utf8(rest@);
    let mut rest: &str = rest;
    while rest.len() > 0
        invariant
            chunks_ok(out@),
            chunks_bytes(out@) + encode_utf8(rest@) == total,
            total.len() <= usize::MAX,
        decreases encode_utf8(rest@).len(),
    {
        let ghost rb = encode_utf8(rest@);
        let mut end: usize = if rest.len() > CHUNK_SIZE {
            CHUNK_SIZE
        } else {
            rest.len()
        };
        while end < rest.len() && !rest.is_char_boundary(end)
            invariant
                0 < end <= rb.len(),
                encode_utf8(rest@) == rb,
            decreases rb.len() - end,
        {
            end += 1;
        }
        proof {
            if end == rb.len() {
                vstd::utf8::is_char_boundary_start_end_of_seq(rb);
            }
        }
        let (head, tail) = rest.split_at(end);
        let c = Chunk::new(head.to_owned());
        proof {
            assert(c@ == rb.take(end as int));
            assert(encode_utf8(tail@) =~= rb.skip(end as int));
            assert(rb.take(end as int) + rb.skip(end as int) =~= rb);
        }
        push_chunk(out, c);
        proof {
            assert(chunks_bytes(out@) + encode_utf8(tail@) =~= total);
        }
        rest = tail;
    }
    proof {
        assert(encode_utf8(rest@).len() == 0);
        assert(chunks_bytes(out@) =~= total);
    }
}

/// The bytes of a chunk sequence are valid UTF-8: each chunk is, and
/// validity is preserved by concatenation.
pub proof fn lemma_chunks_bytes_valid(items: Seq<Chunk>)
    ensures
        valid_utf8(chunks_bytes(items)),
    decreases items.len(),
{
    if items.len() == 0 {
        assert(chunks_bytes(items) =~= Seq::<u8>::empty());
        assert(valid_utf8(Seq::<u8>::empty()));
    } else {
        lemma_chunks_bytes_valid(items.drop_last());
        vstd::utf8::valid_utf8_concat(chunks_bytes(items.drop_last()), items.last()@);
    }
}

/// Count the characters that begin in `bytes[from..to]`: one per byte
/// that is not a UTF-8 continuation byte.
pub(crate) fn chars_in_range(bytes: &[u8], from: usize, to: usize) -> (r: usize)
    requires
        from <= to <= bytes@.len(),
    ensures
        r == text::chars_in(bytes@.subrange(from as int, to as int)),
{
    let mut r: usize = 0;
    let mut j: usize = from;
    proof {
        assert(bytes@.subrange(from as int, from as int) =~= Seq::<u8>::empty());
    }
    while j < to
        invariant
            from <= j <= to <= bytes@.len(),
            r <= j - from,
            r == text::chars_in(bytes@.subrange(from as int, j as int)),
        decreases to - j,
    {
        proof {
            assert(bytes@.subrange(from as int, j + 1) =~= bytes@.subrange(
                from as int,
                j as int,
            ).push(bytes@[j as int]));
            assert(bytes@.subrange(from as int, j + 1).drop_last() =~= bytes@.subrange(
                from as int,
                j as int,
            ));
            text::lemma_chars_le_len(bytes@.subrange(from as int, j + 1));
        }
        let b = bytes[j];
        if !(b >= 128 && b <= 191) {
            r += 1;
        }
        j += 1;
    }
    r
}

/// Documents shorter than this are edited by a full re-chunking; longer
/// ones by splicing chunks around the edit.
pub const REBUILD_LIMIT: usize = 1000000;

/// The bytes a deletion of `[start, end)` has kept after processing the
/// first `cur` bytes of the document.
pub open spec fn kept_bytes(s: Seq<u8>, start: int, end: int, cur: int) -> Seq<u8> {
    s.subrange(
        0,
        if cur <= start {
            cur
        } else {
            start
        },
    ) + s.subrange(
        end,
        if cur >= end {
            cur
        } else {
            end
        },
    )
}

/// A chunk sequence's bytes split at two chunk borders.
pub proof fn lemma_chunks_bytes_split3(cv: Seq<Chunk>, a: int, b: int)
    requires
        0 <= a <= b <= cv.len(),
    ensures
        chunks_bytes(cv) == chunks_bytes(cv.subrange(0, a)) + chunks_bytes(cv.subrange(a, b))
            + chunks_bytes(cv.subrange(b, cv.len() as int)),
{
    lemma_chunks_bytes_concat(cv.subrange(0, a), cv.subrange(a, cv.len() as int));
    lemma_chunks_bytes_concat(cv.subrange(a, b), cv.subrange(b, cv.len() as int));
    assert(cv.subrange(0, a) + cv.subrange(a, cv.len() as int) =~= cv);
    assert(cv.subrange(a, b) + cv.subrange(b, cv.len() as int) =~= cv.subrange(
        a,
        cv.len() as int,
    ));
}

/// Append clones of `chunks[from..to]` to `out`.
fn extend_chunks(out: &mut Vec<Chunk>, chunks: &Vec<Chunk>, from: usize, to: usize)
    requires
        from <= to <= chunks@.len(),
        chunks_ok(old(out)@),
        chunks_ok(chunks@),
        chunks_bytes(old(out)@).len() + chunks_bytes(chunks@.subrange(from as int, to as int)).len()
            <= usize::MAX,
    ensures
        chunks_ok(final(out)@),
        chunks_bytes(final(out)@) == chunks_bytes(old(out)@) + chunks_bytes(
            chunks@.subrange(from as int, to as int),
        ),
{
    let ghost cv = chunks@;
    let ghost base = chunks_bytes(old(out)@);
    let mut j: usize = from;
    proof {
        assert(cv.subrange(from as int, from as int) =~= Seq::<Chunk>::empty());
        assert(chunks_bytes(cv.subrange(from as int, from as int)) =~= Seq::<u8>::empty());
        assert(base + chunks_bytes(cv.subrange(from as int, from as int)) =~= base);
    }
    while j < to
        invariant
            chunks@ == cv,
            from <= j <= to <= cv.len(),
            chunks_ok(out@),
            chunks_ok(cv),
            base.len() + chunks_bytes(cv.subrange(from as int, to as int)).len() <= usize::MAX,
            chunks_bytes(out@) == base + chunks_bytes(cv.subrange(from as int, j as int)),
        decreases to - j,
    {
        let c = chunks[j].clone();
        proof {
            lemma_cloned_chunk(cv[j as int], c);
            assert(cv.subrange(from as int, j + 1) =~= cv.subrange(from as int, j as int).push(
                cv[j as int],
            ));
            lemma_chunks_bytes_push(cv.subrange(from as int, j as int), cv[j as int]);
            lemma_chunks_bytes_concat(cv.subrange(from as int, j + 1), cv.subrange(j + 1, to as int));
            assert(cv.subrange(from as int, j + 1) + cv.subrange(j + 1, to as int) =~= cv.subrange(
                from as int,
                to as int,
            ));
            assert(chunks_bytes(cv.subrange(from as int, j + 1)).len() <= chunks_bytes(
                cv.subrange(from as int, to as int),
            ).len());
            assert(c@.len() <= usize::MAX) by {
                assert(cv[j as int]@.len() <= usize::MAX);
            }
        }
        push_chunk(out, c);
        proof {
            assert(chunks_bytes(out@) =~= base + chunks_bytes(cv.subrange(from as int, j + 1)));
        }
        j += 1;
    }
}

/// A document: the concatenation of a tree of chunks. Its view is the
/// document's UTF-8 bytes.
pub struct Rope {
    tree: SumTree<Chunk>,
}

impl View for Rope {
    type V = Seq<u8>;

    closed spec fn view(&self) -> Seq<u8> {
        chunks_bytes(self.tree.items())
    }
}

impl Rope {
    /// The chunk tree is well-formed and its summaries fold in range.
    #[verifier::type_invariant]
    spec fn inv(self) -> bool {
        &&& self.tree.wf()
        &&& chunks_ok(self.tree.items())
    }

    /// The chunks the document is made of.
    pub closed spec fn chunks(self) -> Seq<Chunk> {
        self.tree.items()
    }

    /// An empty document.
    pub fn new() -> (r: Rope)
        ensures
            r@ == Seq::<u8>::empty(),
    {
        let tree = SumTree::new();
        proof {
            assert(chunks_bytes(tree.items()) =~= Seq::<u8>::empty());
        }
        Rope { tree }
    }

    /// Build a document from text, cutting it into chunks aligned on
    /// character boundaries and building the tree in one pass.
    pub fn from_text(text: &str) -> (r: Rope)
        ensures
            r@ == encode_utf8(text@),
    {
        let n = text.as_bytes().len();
        let mut chunks: Vec<Chunk> = Vec::new();
        proof {
            assert(chunks_bytes(chunks@) =~= Seq::<u8>::empty());
        }
        append_text_chunks(&mut chunks, text);
        let tree = SumTree::from_items(chunks);
        Rope { tree }
    }

    /// Byte length of the document, from the cached summary.
    pub fn len(&self) -> (r: usize)
        ensures
            r == self@.len(),
    {
        proof {
            use_type_invariant(self);
            lemma_fold_is_metrics(self.tree.items());
        }
        self.tree.summary().len
    }

    /// Whether the document is empty.
    pub fn is_empty(&self) -> (r: bool)
        ensures
            r == (self@.len() == 0),
    {
        self.len() == 0
    }

    /// Number of newlines in the document, from the cached summary.
    pub fn line_count(&self) -> (r: usize)
        ensures
            r == text::newline_count(self@),
    {
        proof {
            use_type_invariant(self);
            lemma_fold_is_metrics(self.tree.items());
        }
        self.tree.summary().lines
    }

    /// The whole document as one string.
    pub fn to_string(&self) -> (r: String)
        ensures
            encode_utf8(r@) == self@,
    {
        proof {
            use_type_invariant(self);
        }
        let chunks = self.tree.to_vec();
        let ghost items = self.tree.items();
        proof {
            assert forall|k: int| 0 <= k < chunks@.len() implies (#[trigger] chunks@[k])@
                == items[k]@ by {
                lemma_cloned_chunk(items[k], chunks@[k]);
            };
        }
        let mut out = String::new();
        let mut k: usize = 0;
        proof {
            assert(encode_utf8(out@) =~= chunks_bytes(items.take(0)));
        }
        while k < chunks.len()
            invariant
                0 <= k <= chunks@.len(),
                chunks@.len() == items.len(),
                forall|j: int| 0 <= j < chunks@.len() ==> (#[trigger] chunks@[j])@ == items[j]@,
                encode_utf8(out@) == chunks_bytes(items.take(k as int)),
            decreases chunks@.len() - k,
        {
            let piece = chunks[k].as_str();
            proof {
                text::lemma_encode_utf8_concat(out@, piece@);
                lemma_chunks_bytes_take_step(items, k as int);
            }
            out.append(piece);
            k += 1;
        }
        proof {
            assert(items.take(items.len() as int) =~= items);
        }
        out
    }

    /// Clones of the document's chunks, with their bytes pinned down.
    fn chunk_list(&self) -> (r: Vec<Chunk>)
        ensures
            r@.len() == self.chunks().len(),
            forall|k: int| 0 <= k < r@.len() ==> (#[trigger] r@[k])@ == self.chunks()[k]@,
            chunks_bytes(r@) == self@,
            chunks_ok(r@),
            self@.len() <= usize::MAX,
    {
        proof {
            use_type_invariant(self);
        }
        let v = self.tree.to_vec();
        proof {
            assert forall|k: int| 0 <= k < v@.len() implies (#[trigger] v@[k])@
                == self.tree.items()[k]@ by {
                lemma_cloned_chunk(self.tree.items()[k], v@[k]);
            };
            lemma_chunks_congruent(self.tree.items(), v@);
            lemma_fold_is_metrics(v@);
        }
        v
    }

    /// The byte offset where line `target_line` begins: 0 for line 0,
    /// one past the previous newline, or the document length for lines
    /// past the end. Streams chunks, then reads the exact offset from the
    /// containing chunk's newline cache.
    pub fn line_to_byte(&self, target_line: usize) -> (r: usize)
        ensures
            r == text::start_of_line(self@, target_line as int),
    {
        let ghost s = self@;
        if target_line == 0 {
            return 0;
        }
        let chunks = self.chunk_list();
        let ghost cv = chunks@;
        let mut current_line: usize = 0;
        let mut byte_offset: usize = 0;
        let mut k: usize = 0;
        proof {
            assert(cv.take(0) =~= Seq::<Chunk>::empty());
            assert(chunks_bytes(cv.take(0)) =~= Seq::<u8>::empty());
        }
        while k < chunks.len()
            invariant
                s == self@,
                chunks@ == cv,
                chunks_bytes(cv) == s,
                chunks_ok(cv),
                s.len() <= usize::MAX,
                target_line >= 1,
                0 <= k <= cv.len(),
                byte_offset == chunks_bytes(cv.take(k as int)).len(),
                current_line == text::newline_count(chunks_bytes(cv.take(k as int))),
                current_line < target_line,
            decreases cv.len() - k,
        {
            let ghost pre = chunks_bytes(cv.take(k as int));
            let ghost cb = cv[k as int]@;
            proof {
                lemma_chunks_bytes_take_step(cv, k as int);
                lemma_chunks_bytes_concat(cv.take(k as int + 1), cv.skip(k as int + 1));
                assert(cv.take(k as int + 1) + cv.skip(k as int + 1) =~= cv);
                assert((pre + cb).len() <= s.len());
                assert(s.take((pre + cb).len() as int) =~= pre + cb);
                text::lemma_newlines_concat(pre, cb);
                text::lemma_newlines_prefix(s, (pre + cb).len() as int);
                text::lemma_newline_count_le_len(pre);
                text::lemma_newline_count_le_len(cb);
                text::lemma_newlines_sound(cb);
            }
            let chunk = &chunks[k];
            let newlines_in_chunk = chunk.count_lines();
            let chunk_len = chunk.len();
            if current_line + newlines_in_chunk >= target_line {
                let line_in_chunk = target_line - current_line;
                match chunk.get_newline_position(line_in_chunk - 1) {
                    Some(newline_pos) => {
                        proof {
                            let j = line_in_chunk - 1;
                            let o = (pre + cb).len() as int;
                            let shifted = text::newlines(cb).map_values(|q: int| q + pre.len());
                            assert(text::newline_count(pre + cb) == current_line
                                + newlines_in_chunk);
                            assert(text::newline_count(s.take(o)) == text::newline_count(pre + cb));
                            assert(target_line <= text::newline_count(s));
                            assert(text::newlines(pre + cb)[current_line + j] == shifted[j as int]);
                            assert(shifted[j as int] == text::newlines(cb)[j as int] + pre.len());
                            assert(text::newlines(s)[target_line - 1] == text::newlines(
                                s.take(o),
                            )[target_line - 1]);
                            assert(text::newlines(s.take(o))[target_line - 1] == text::newlines(
                                pre + cb,
                            )[target_line - 1]);
                            assert(text::newlines(cb)[j as int] < cb.len());
                            assert(chunk@ == cb);
                            assert(j < text::newline_count(cb));
                            assert(newline_pos == text::newlines(cb)[j as int]);
                            assert(byte_offset == pre.len());
                            assert(byte_offset + newline_pos + 1 == text::newlines(s)[target_line
                                - 1] + 1);
                            assert(byte_offset + newline_pos + 1 == text::start_of_line(
                                s,
                                target_line as int,
                            ));
                        }
                        return byte_offset + newline_pos + 1;
                    },
                    None => {
                        proof {
                            assert(false);
                        }
                        return byte_offset + chunk_len;
                    },
                }
            }
            current_line = current_line + newlines_in_chunk;
            byte_offset = byte_offset + chunk_len;
            k += 1;
        }
        proof {
            assert(cv.take(cv.len() as int) =~= cv);
            assert(current_line == text::newline_count(s));
        }
        byte_offset
    }

    /// The line and column of a byte offset: the number of newlines
    /// before it, and the number of characters between its line's start
    /// and the offset. Streams chunks, counting characters only from the
    /// last newline before the offset.
    #[verifier::rlimit(60)]
    pub fn byte_to_line_col(&self, offset: usize) -> (r: (usize, usize))
        requires
            offset <= self@.len(),
        ensures
            r.0 == text::line_at(self@, offset as int),
            r.1 == text::column_at(self@, offset as int),
    {
        let ghost s = self@;
        let chunks = self.chunk_list();
        let ghost cv = chunks@;
        let mut line: usize = 0;
        let mut column: usize = 0;
        let mut byte_offset: usize = 0;
        let mut k: usize = 0;
        proof {
            assert(cv.take(0) =~= Seq::<Chunk>::empty());
            assert(chunks_bytes(cv.take(0)) =~= Seq::<u8>::empty());
            assert(s.take(0) =~= Seq::<u8>::empty());
            assert(s.subrange(0, 0) =~= Seq::<u8>::empty());
        }
        while k < chunks.len()
            invariant
                s == self@,
                chunks@ == cv,
                chunks_bytes(cv) == s,
                chunks_ok(cv),
                s.len() <= usize::MAX,
                offset <= s.len(),
                0 <= k <= cv.len(),
                byte_offset == chunks_bytes(cv.take(k as int)).len(),
                byte_offset <= offset,
                line == text::line_at(s, byte_offset as int),
                column == text::column_at(s, byte_offset as int),
            decreases cv.len() - k,
        {
            let ghost pre = chunks_bytes(cv.take(k as int));
            let ghost cb = cv[k as int]@;
            proof {
                lemma_chunks_bytes_take_step(cv, k as int);
                lemma_chunks_bytes_concat(cv.take(k as int + 1), cv.skip(k as int + 1));
                assert(cv.take(k as int + 1) + cv.skip(k as int + 1) =~= cv);
                assert((pre + cb).len() <= s.len());
                assert(s.take((pre + cb).len() as int) =~= pre + cb);
                assert(s.take(byte_offset as int) =~= pre);
                assert(forall|i: int| 0 <= i < cb.len() ==> s[pre.len() + i] == cb[i]);
                text::lemma_newlines_concat(pre, cb);
                text::lemma_newlines_prefix(s, (pre + cb).len() as int);
                text::lemma_newline_count_le_len(pre);
                text::lemma_newline_count_le_len(cb);
                text::lemma_newlines_sound(cb);
                text::lemma_start_le(s, byte_offset as int);
                text::lemma_chars_le_len(
                    s.subrange(
                        text::start_of_line(s, text::line_at(s, byte_offset as int)),
                        byte_offset as int,
                    ),
                );
            }
            let chunk = &chunks[k];
            let chunk_len = chunk.len();
            if byte_offset + chunk_len > offset {
                // the offset lies in this chunk: walk its bytes
                let bytes = chunk.as_str().as_bytes();
                let off_in = offset - byte_offset;
                let mut i: usize = 0;
                while i < off_in
                    invariant
                        s == self@,
                        bytes@ == cb,
                        chunks_bytes(cv) == s,
                        s.len() <= usize::MAX,
                        pre.len() == byte_offset,
                        byte_offset + off_in == offset,
                        offset <= s.len(),
                        off_in <= cb.len(),
                        forall|j: int| 0 <= j < cb.len() ==> s[pre.len() + j] == cb[j],
                        0 <= i <= off_in,
                        line == text::line_at(s, byte_offset + i),
                        column == text::column_at(s, byte_offset + i),
                        line <= text::newline_count(s),
                        column <= byte_offset + i,
                    decreases off_in - i,
                {
                    proof {
                        text::lemma_line_col_step(s, byte_offset + i);
                        text::lemma_newline_count_le_len(s);
                        assert(s[byte_offset + i] == cb[i as int]);
                        text::lemma_start_le(s, byte_offset + i + 1);
                        text::lemma_chars_le_len(
                            s.subrange(
                                text::start_of_line(s, text::line_at(s, byte_offset + i + 1)),
                                byte_offset + i + 1,
                            ),
                        );
                    }
                    let b = bytes[i];
                    if b == 10 {
                        line += 1;
                        column = 0;
                    } else if !(b >= 128 && b <= 191) {
                        column += 1;
                    }
                    i += 1;
                }
                return (line, column);
            }
            let cnt = chunk.count_lines();
            let ghost bo2 = byte_offset + cb.len();
            proof {
                assert(s.take(bo2 as int) == pre + cb);
                assert(text::line_at(s, bo2 as int) == text::newline_count(pre)
                    + text::newline_count(cb));
            }
            if cnt > 0 {
                match chunk.get_newline_position(cnt - 1) {
                    Some(last_nl) => {
                        let bytes = chunk.as_str().as_bytes();
                        proof {
                            let line2 = text::line_at(s, bo2 as int);
                            let shifted = text::newlines(cb).map_values(|q: int| q + pre.len());
                            assert(text::newlines(pre + cb)[line2 - 1] == shifted[cnt - 1]);
                            assert(shifted[cnt - 1] == text::newlines(cb)[cnt - 1] + pre.len());
                            assert(text::newline_count(s.take(bo2 as int)) == line2);
                            assert(text::newlines(s)[line2 - 1] == text::newlines(
                                s.take(bo2 as int),
                            )[line2 - 1]);
                            assert(text::start_of_line(s, line2) == byte_offset + last_nl + 1);
                            assert(s.subrange(byte_offset + last_nl + 1, bo2 as int)
                                =~= cb.subrange(last_nl + 1, cb.len() as int));
                        }
                        column = chars_in_range(bytes, last_nl + 1, chunk_len);
                        line = line + cnt;
                    },
                    None => {
                        proof {
                            assert(false);
                        }
                    },
                }
            } else {
                let bytes = chunk.as_str().as_bytes();
                let ghost st = text::start_of_line(s, text::line_at(s, byte_offset as int));
                proof {
                    assert(text::line_at(s, bo2 as int) == text::line_at(s, byte_offset as int));
                    assert(s.subrange(st, bo2 as int) =~= s.subrange(st, byte_offset as int)
                        + s.subrange(byte_offset as int, bo2 as int));
                    text::lemma_chars_in_concat(
                        s.subrange(st, byte_offset as int),
                        s.subrange(byte_offset as int, bo2 as int),
                    );
                    assert(s.subrange(byte_offset as int, bo2 as int) =~= cb.subrange(
                        0,
                        cb.len() as int,
                    ));
                    assert(cb.subrange(0, cb.len() as int) =~= cb);
                    text::lemma_chars_le_len(cb);
                }
                let extra = chars_in_range(bytes, 0, chunk_len);
                proof {
                    assert(bytes@.subrange(0, chunk_len as int) =~= cb);
                }
                column = column + extra;
            }
            byte_offset = byte_offset + chunk_len;
            k += 1;
        }
        proof {
            assert(cv.take(cv.len() as int) =~= cv);
        }
        (line, column)
    }

    /// Extract the text of a byte range without materialising the whole
    /// document: only overlapping chunks are visited. The end is clamped
    /// to the document; an empty or inverted range gives the empty string.
    pub fn slice_bytes(&self, start: usize, end: usize) -> (r: String)
        requires
            start < end && start < self@.len() ==> is_char_boundary(self@, start as int)
                && is_char_boundary(
                self@,
                if end <= self@.len() {
                    end as int
                } else {
                    self@.len() as int
                },
            ),
        ensures
            start >= end || start >= self@.len() ==> r@.len() == 0,
            start < end && start < self@.len() ==> encode_utf8(r@) == self@.subrange(
                start as int,
                if end <= self@.len() {
                    end as int
                } else {
                    self@.len() as int
                },
            ),
    {
        let ghost s = self@;
        let len = self.len();
        let e = if end > len {
            len
        } else {
            end
        };
        if start >= e {
            let r = String::new();
            proof {
                assert(r@.len() == 0);
            }
            return r;
        }
        let chunks = self.chunk_list();
        let ghost cv = chunks@;
        proof {
            lemma_chunks_bytes_valid(cv);
        }
        let mut result = String::new();
        let mut cur: usize = 0;
        let mut k: usize = 0;
        proof {
            assert(cv.take(0) =~= Seq::<Chunk>::empty());
            assert(chunks_bytes(cv.take(0)) =~= Seq::<u8>::empty());
            assert(s.subrange(start as int, start as int) =~= Seq::<u8>::empty());
        }
        while k < chunks.len()
            invariant
                s == self@,
                chunks@ == cv,
                chunks_bytes(cv) == s,
                chunks_ok(cv),
                valid_utf8(s),
                s.len() <= usize::MAX,
                start < e <= s.len(),
                is_char_boundary(s, start as int),
                is_char_boundary(s, e as int),
                0 <= k <= cv.len(),
                cur == chunks_bytes(cv.take(k as int)).len(),
                encode_utf8(result@) == s.subrange(
                    start as int,
                    if cur <= start {
                        start as int
                    } else if cur <= e {
                        cur as int
                    } else {
                        e as int
                    },
                ),
            decreases cv.len() - k,
        {
            let ghost pre = chunks_bytes(cv.take(k as int));
            let ghost cb = cv[k as int]@;
            proof {
                lemma_chunks_bytes_take_step(cv, k as int);
                lemma_chunks_bytes_concat(cv.take(k as int + 1), cv.skip(k as int + 1));
                assert(cv.take(k as int + 1) + cv.skip(k as int + 1) =~= cv);
                assert((pre + cb).len() <= s.len());
                assert(forall|i: int| 0 <= i < cb.len() ==> s[pre.len() + i] == cb[i]);
            }
            let chunk = &chunks[k];
            let chunk_len = chunk.len();
            let chunk_end = cur + chunk_len;
            if chunk_end > start && cur < e {
                let slice_start = if cur < start {
                    start - cur
                } else {
                    0
                };
                let slice_end = if chunk_end > e {
                    e - cur
                } else {
                    chunk_len
                };
                proof {
                    vstd::utf8::is_char_boundary_start_end_of_seq(cb);
                    if slice_start > 0 {
                        vstd::utf8::is_char_boundary_iff_not_is_continuation_byte(
                            s,
                            start as int,
                        );
                        vstd::utf8::is_char_boundary_iff_not_is_continuation_byte(
                            cb,
                            slice_start as int,
                        );
                        assert(cb[slice_start as int] == s[start as int]);
                    }
                    if slice_end < chunk_len {
                        vstd::utf8::is_char_boundary_iff_not_is_continuation_byte(s, e as int);
                        vstd::utf8::is_char_boundary_iff_not_is_continuation_byte(
                            cb,
                            slice_end as int,
                        );
                        assert(cb[slice_end as int] == s[e as int]);
                    }
                }
                let piece = chunk.byte_range_str(slice_start, slice_end);
                proof {
                    text::lemma_encode_utf8_concat(result@, piece@);
                    assert(cb.subrange(slice_start as int, slice_end as int) =~= s.subrange(
                        cur + slice_start,
                        cur + slice_end,
                    ));
                    assert(s.subrange(
                        start as int,
                        if cur <= start {
                            start as int
                        } else {
                            cur as int
                        },
                    ) + s.subrange(cur + slice_start, cur + slice_end) =~= s.subrange(
                        start as int,
                        cur + slice_end,
                    ));
                }
                result.append(piece);
            }
            cur = chunk_end;
            k += 1;
            proof {
                assert(encode_utf8(result@) == s.subrange(
                    start as int,
                    if cur <= start {
                        start as int
                    } else if cur <= e {
                        cur as int
                    } else {
                        e as int
                    },
                ));
            }
        }
        proof {
            assert(cv.take(cv.len() as int) =~= cv);
        }
        result
    }

    /// The byte range of one line, without its terminating newline:
    /// present for every line before a newline, and for a non-empty
    /// trailing line.
    pub fn line_byte_range(&self, line_idx: usize) -> (r: Option<(usize, usize)>)
        ensures
            text::line_exists(self@, line_idx as int) ==> r == Some(
                (
                    text::start_of_line(self@, line_idx as int) as usize,
                    text::end_of_line(self@, line_idx as int) as usize,
                ),
            ),
            !text::line_exists(self@, line_idx as int) ==> r is None,
    {
        proof {
            use_type_invariant(self);
            lemma_fold_is_metrics(self.tree.items());
            text::lemma_newlines_sound(self@);
        }
        let cnt = self.line_count();
        let len = self.len();
        if line_idx < cnt {
            let st = self.line_to_byte(line_idx);
            let next = self.line_to_byte(line_idx + 1);
            Some((st, next - 1))
        } else if line_idx == cnt {
            let st = self.line_to_byte(line_idx);
            if st < len {
                Some((st, len))
            } else {
                None
            }
        } else {
            None
        }
    }

    /// The text of one line, without its terminating newline.
    pub fn line(&self, line_idx: usize) -> (r: Option<String>)
        ensures
            text::line_exists(self@, line_idx as int) ==> (r matches Some(t) && encode_utf8(t@)
                == text::line_bytes(self@, line_idx as int)),
            !text::line_exists(self@, line_idx as int) ==> r is None,
    {
        let ghost s = self@;
        proof {
            use_type_invariant(self);
            lemma_chunks_bytes_valid(self.tree.items());
            lemma_fold_is_metrics(self.tree.items());
            text::lemma_newlines_sound(s);
        }
        match self.line_byte_range(line_idx) {
            Some((a, b)) => {
                proof {
                    let line = line_idx as int;
                    assert(text::line_exists(s, line));
                    assert(0 <= text::start_of_line(s, line) <= s.len());
                    assert(0 <= text::end_of_line(s, line) <= s.len());
                    assert(a == text::start_of_line(s, line));
                    assert(b == text::end_of_line(s, line));
                    text::lemma_newline_count_le_len(s);
                    if a > 0 {
                        assert(1 <= line <= text::newline_count(s));
                        assert(a - 1 == text::newlines(s)[line - 1]);
                        assert(s[a - 1] == text::nl());
                        text::lemma_boundary_after_newline(s, a - 1);
                    } else {
                        vstd::utf8::is_char_boundary_start_end_of_seq(s);
                    }
                    if (b as int) < s.len() {
                        assert(0 <= line < text::newline_count(s));
                        assert(b == text::newlines(s)[line]);
                        assert(s[b as int] == text::nl());
                        vstd::utf8::is_char_boundary_iff_not_is_continuation_byte(s, b as int);
                    } else {
                        vstd::utf8::is_char_boundary_start_end_of_seq(s);
                    }
                    if a == b {
                        assert(text::line_bytes(s, line) =~= Seq::<u8>::empty());
                    }
                }
                Some(self.slice_bytes(a, b))
            },
            None => None,
        }
    }

    /// Insert text at a byte position lying on a character boundary.
    /// Small documents are re-chunked wholesale; large ones are spliced
    /// at the affected chunk.
    pub fn insert(&mut self, pos: usize, new_text: &str)
        requires
            is_char_boundary(old(self)@, pos as int),
            old(self)@.len() + encode_utf8(new_text@).len() <= usize::MAX,
        ensures
            final(self)@ == old(self)@.take(pos as int) + encode_utf8(new_text@) + old(self)@.skip(pos as int),
    {
        let ghost s = old(self)@;
        let ghost nt = encode_utf8(new_text@);
        proof {
            use_type_invariant(&*self);
            lemma_chunks_bytes_valid(self.tree.items());
            text::lemma_boundary_le_len(s, pos as int);
        }
        if new_text.len() == 0 {
            proof {
                assert(nt.len() == 0);
                assert(s.take(pos as int) + nt + s.skip(pos as int) =~= s);
            }
            return;
        }
        let len = self.len();
        if len < REBUILD_LIMIT {
            let content = self.to_string();
            let (a, b) = content.as_str().split_at(pos);
            let mut combined = a.to_owned();
            combined.append(new_text);
            combined.append(b);
            proof {
                text::lemma_encode_utf8_concat(a@, new_text@);
                text::lemma_encode_utf8_concat(a@ + new_text@, b@);
                assert(combined@ == (a@ + new_text@) + b@);
                assert(encode_utf8(a@) =~= s.take(pos as int));
                assert(encode_utf8(b@) =~= s.skip(pos as int));
            }
            let r = Rope::from_text(combined.as_str());
            *self = r;
        } else {
            self.insert_optimized(pos, new_text);
        }
    }

    /// Splice new text into the chunk list: chunks before the position
    /// are kept, the chunk holding it is split, the text is re-chunked
    /// in between, and the tree is rebuilt in one pass.
    fn insert_optimized(&mut self, pos: usize, new_text: &str)
        requires
            is_char_boundary(old(self)@, pos as int),
            old(self)@.len() + encode_utf8(new_text@).len() <= usize::MAX,
        ensures
            final(self)@ == old(self)@.take(pos as int) + encode_utf8(new_text@) + old(self)@.skip(pos as int),
    {
        let ghost s = old(self)@;
        let ghost nt = encode_utf8(new_text@);
        let ghost target = s.take(pos as int) + nt + s.skip(pos as int);
        proof {
            use_type_invariant(&*self);
            lemma_chunks_bytes_valid(self.tree.items());
            text::lemma_boundary_le_len(s, pos as int);
        }
        let chunks = self.chunk_list();
        let ghost cv = chunks@;
        let mut k0: usize = 0;
        let mut cur: usize = 0;
        let mut more: usize = 1;
        while k0 < chunks.len() && more == 1
            invariant
                chunks@ == cv,
                chunks_bytes(cv) == s,
                chunks_ok(cv),
                s.len() <= usize::MAX,
                pos <= s.len(),
                0 <= k0 <= cv.len(),
                more <= 1,
                cur == chunks_bytes(cv.take(k0 as int)).len(),
                cur <= pos,
                more == 1 || (k0 < cv.len() && cur + cv[k0 as int]@.len() > pos),
            decreases cv.len() - k0 + more,
        {
            proof {
                lemma_chunks_bytes_take_step(cv, k0 as int);
                lemma_chunks_bytes_concat(cv.take(k0 as int + 1), cv.skip(k0 as int + 1));
                assert(cv.take(k0 as int + 1) + cv.skip(k0 as int + 1) =~= cv);
            }
            let l = chunks[k0].len();
            if cur + l <= pos {
                cur = cur + l;
                k0 += 1;
            } else {
                more = 0;
            }
        }
        let mut out: Vec<Chunk> = Vec::new();
        proof {
            assert(chunks_bytes(out@) =~= Seq::<u8>::empty());
            assert(cv.subrange(0, 0) =~= Seq::<Chunk>::empty());
            lemma_chunks_bytes_split3(cv, k0 as int, cv.len() as int);
            assert(cv.subrange(0, k0 as int) =~= cv.take(k0 as int));
            assert(chunks_bytes(Seq::<Chunk>::empty()) =~= Seq::<u8>::empty());
        }
        extend_chunks(&mut out, &chunks, 0, k0);
        proof {
            assert(chunks_bytes(out@) =~= chunks_bytes(cv.take(k0 as int)));
            assert(s.take(cur as int) =~= chunks_bytes(cv.take(k0 as int)));
        }
        if cur < pos {
            // the position lies inside chunk k0: split it there
            let ghost cb = cv[k0 as int]@;
            proof {
                lemma_chunks_bytes_take_step(cv, k0 as int);
                lemma_chunks_bytes_concat(cv.take(k0 as int + 1), cv.skip(k0 as int + 1));
                assert(cv.take(k0 as int + 1) + cv.skip(k0 as int + 1) =~= cv);
                assert(forall|i: int| 0 <= i < cb.len() ==> s[cur + i] == cb[i]);
                assert(pos < s.len());
                vstd::utf8::is_char_boundary_iff_not_is_continuation_byte(s, pos as int);
                assert(cb[pos - cur] == s[pos as int]);
                vstd::utf8::is_char_boundary_iff_not_is_continuation_byte(cb, pos - cur);
            }
            let (left, right) = chunks[k0].split_at(pos - cur);
            proof {
                assert(left@ =~= s.subrange(cur as int, pos as int));
                assert(s.take(cur as int) + s.subrange(cur as int, pos as int) =~= s.take(
                    pos as int,
                ));
            }
            push_chunk(&mut out, left);
            append_text_chunks(&mut out, new_text);
            proof {
                assert(right@ =~= s.subrange(pos as int, cur + cb.len()));
            }
            push_chunk(&mut out, right);
            proof {
                lemma_chunks_bytes_split3(cv, k0 as int + 1, cv.len() as int);
                assert(cv.subrange(k0 as int + 1, cv.len() as int) =~= cv.skip(k0 as int + 1));
                assert(s.take(pos as int) + nt + s.subrange(pos as int, cur + cb.len())
                    + chunks_bytes(cv.skip(k0 as int + 1)) =~= target);
                assert(chunks_bytes(out@).len() + chunks_bytes(
                    cv.subrange(k0 as int + 1, cv.len() as int),
                ).len() == target.len());
            }
            extend_chunks(&mut out, &chunks, k0 + 1, chunks.len());
            proof {
                assert(chunks_bytes(out@) =~= target);
            }
        } else {
            // the position falls on a chunk border
            proof {
                assert(cur == pos);
                assert(s.take(pos as int) =~= chunks_bytes(cv.take(k0 as int)));
            }
            append_text_chunks(&mut out, new_text);
            proof {
                lemma_chunks_bytes_split3(cv, k0 as int, cv.len() as int);
                assert(cv.subrange(0, k0 as int) =~= cv.take(k0 as int));
                assert(cv.subrange(k0 as int, cv.len() as int) =~= cv.skip(k0 as int));
                assert(chunks_bytes(cv.skip(k0 as int)) =~= s.skip(pos as int));
                assert(chunks_bytes(out@).len() + chunks_bytes(
                    cv.subrange(k0 as int, cv.len() as int),
                ).len() == target.len());
            }
            extend_chunks(&mut out, &chunks, k0, chunks.len());
            proof {
                assert(chunks_bytes(out@) =~= target);
            }
        }
        let tree = SumTree::from_items(out);
        *self = Rope { tree };
    }

    /// Append text at the end of the document.
    pub fn push_str(&mut self, new_text: &str)
        requires
            old(self)@.len() + encode_utf8(new_text@).len() <= usize::MAX,
        ensures
            final(self)@ == old(self)@ + encode_utf8(new_text@),
    {
        let ghost s = old(self)@;
        proof {
            use_type_invariant(&*self);
            lemma_chunks_bytes_valid(self.tree.items());
            vstd::utf8::is_char_boundary_start_end_of_seq(s);
        }
        let len = self.len();
        self.insert(len, new_text);
        proof {
            assert(s.take(s.len() as int) =~= s);
            assert(s.skip(s.len() as int) =~= Seq::<u8>::empty());
            assert(s + encode_utf8(new_text@) + Seq::<u8>::empty() =~= s + encode_utf8(
                new_text@,
            ));
        }
    }

    /// Delete the bytes in `[start, end)`, both ends on character
    /// boundaries. Small documents are re-chunked wholesale; large ones
    /// keep their chunks outside the range and trim the two at its edges.
    pub fn delete(&mut self, start: usize, end: usize)
        requires
            start <= end,
            is_char_boundary(old(self)@, start as int),
            is_char_boundary(old(self)@, end as int),
        ensures
            final(self)@ == old(self)@.take(start as int) + old(self)@.skip(end as int),
    {
        let ghost s = old(self)@;
        proof {
            use_type_invariant(&*self);
            lemma_chunks_bytes_valid(self.tree.items());
            text::lemma_boundary_le_len(s, end as int);
        }
        if start == end {
            proof {
                assert(s.take(start as int) + s.skip(end as int) =~= s);
            }
            return;
        }
        let len = self.len();
        if len < REBUILD_LIMIT {
            let content = self.to_string();
            let (ab, c) = content.as_str().split_at(end);
            proof {
                assert(encode_utf8(ab@) =~= s.take(end as int));
                vstd::utf8::is_char_boundary_iff_not_is_continuation_byte(s, start as int);
                vstd::utf8::valid_utf8_split(s, end as int);
                assert(encode_utf8(ab@)[start as int] == s[start as int]);
                vstd::utf8::is_char_boundary_iff_not_is_continuation_byte(
                    encode_utf8(ab@),
                    start as int,
                );
            }
            let (a, _b) = ab.split_at(start);
            let mut combined = a.to_owned();
            combined.append(c);
            proof {
                text::lemma_encode_utf8_concat(a@, c@);
                assert(encode_utf8(a@) =~= s.take(start as int));
                assert(encode_utf8(c@) =~= s.skip(end as int));
            }
            let r = Rope::from_text(combined.as_str());
            *self = r;
        } else {
            self.delete_optimized(start, end);
        }
    }

    /// Splice a deletion out of the chunk list: chunks outside the range
    /// are kept, the two at its edges are trimmed, and the tree is
    /// rebuilt in one pass.
    #[verifier::rlimit(100)]
    fn delete_optimized(&mut self, start: usize, end: usize)
        requires
            start <= end,
            is_char_boundary(old(self)@, start as int),
            is_char_boundary(old(self)@, end as int),
        ensures
            final(self)@ == old(self)@.take(start as int) + old(self)@.skip(end as int),
    {
        let ghost s = old(self)@;
        let ghost target = s.take(start as int) + s.skip(end as int);
        proof {
            use_type_invariant(&*self);
            lemma_chunks_bytes_valid(self.tree.items());
            text::lemma_boundary_le_len(s, end as int);
        }
        let chunks = self.chunk_list();
        let ghost cv = chunks@;
        let mut out: Vec<Chunk> = Vec::new();
        let mut cur: usize = 0;
        let mut k: usize = 0;
        proof {
            assert(cv.take(0) =~= Seq::<Chunk>::empty());
            assert(chunks_bytes(cv.take(0)) =~= Seq::<u8>::empty());
            assert(chunks_bytes(out@) =~= kept_bytes(s, start as int, end as int, 0));
        }
        while k < chunks.len()
            invariant
                chunks@ == cv,
                chunks_bytes(cv) == s,
                chunks_ok(cv),
                chunks_ok(out@),
                valid_utf8(s),
                s.len() <= usize::MAX,
                start <= end <= s.len(),
                is_char_boundary(s, start as int),
                is_char_boundary(s, end as int),
                0 <= k <= cv.len(),
                cur == chunks_bytes(cv.take(k as int)).len(),
                chunks_bytes(out@) == kept_bytes(s, start as int, end as int, cur as int),
            decreases cv.len() - k,
        {
            let ghost cb = cv[k as int]@;
            proof {
                lemma_chunks_bytes_take_step(cv, k as int);
                lemma_chunks_bytes_concat(cv.take(k as int + 1), cv.skip(k as int + 1));
                assert(cv.take(k as int + 1) + cv.skip(k as int + 1) =~= cv);
                assert(forall|i: int| 0 <= i < cb.len() ==> s[cur + i] == cb[i]);
            }
            let chunk = &chunks[k];
            let l = chunk.len();
            let ce = cur + l;
            if ce <= start {
                let c = chunk.clone();
                proof {
                    lemma_cloned_chunk(cv[k as int], c);
                    assert(kept_bytes(s, start as int, end as int, cur as int) + cb
                        =~= kept_bytes(s, start as int, end as int, ce as int));
                }
                push_chunk(&mut out, c);
            } else if cur >= end {
                let c = chunk.clone();
                proof {
                    lemma_cloned_chunk(cv[k as int], c);
                    assert(kept_bytes(s, start as int, end as int, cur as int) + cb
                        =~= kept_bytes(s, start as int, end as int, ce as int));
                }
                push_chunk(&mut out, c);
            } else {
                let keep_start = if cur < start {
                    start - cur
                } else {
                    0
                };
                let keep_end = if ce > end {
                    end - cur
                } else {
                    l
                };
                if keep_start > 0 {
                    proof {
                        assert(start < s.len());
                        vstd::utf8::is_char_boundary_iff_not_is_continuation_byte(
                            s,
                            start as int,
                        );
                        assert(cb[keep_start as int] == s[start as int]);
                        vstd::utf8::is_char_boundary_iff_not_is_continuation_byte(
                            cb,
                            keep_start as int,
                        );
                    }
                    let (left, _) = chunk.split_at(keep_start);
                    proof {
                        assert(left@ =~= s.subrange(cur as int, start as int));
                    }
                    push_chunk(&mut out, left);
                }
                if keep_end < l {
                    proof {
                        assert(end < s.len());
                        vstd::utf8::is_char_boundary_iff_not_is_continuation_byte(s, end as int);
                        assert(cb[keep_end as int] == s[end as int]);
                        vstd::utf8::is_char_boundary_iff_not_is_continuation_byte(
                            cb,
                            keep_end as int,
                        );
                    }
                    let (_, right) = chunk.split_at(keep_end);
                    proof {
                        assert(right@ =~= s.subrange(end as int, ce as int));
                    }
                    push_chunk(&mut out, right);
                }
                proof {
                    assert(chunks_bytes(out@) =~= kept_bytes(
                        s,
                        start as int,
                        end as int,
                        ce as int,
                    ));
                }
            }
            cur = ce;
            k += 1;
        }
        proof {
            assert(cv.take(cv.len() as int) =~= cv);
            assert(kept_bytes(s, start as int, end as int, s.len() as int) =~= target);
        }
        let tree = SumTree::from_items(out);
        *self = Rope { tree };
    }

    /// How many chunks the document is stored in.
    pub fn chunk_count(&self) -> (r: usize)
        ensures
            r == self.chunks().len(),
    {
        self.tree.to_vec().len()
    }

    /// A rough estimate of the memory the document occupies: its bytes
    /// plus a fixed overhead per chunk, saturating at the address space.
    pub fn memory_usage(&self) -> (r: usize)
        ensures
            r == if self@.len() + self.chunks().len() * 64 <= usize::MAX {
                (self@.len() + self.chunks().len() * 64) as int
            } else {
                usize::MAX as int
            },
    {
        let n = self.chunk_count();
        let overhead = match n.checked_mul(64) {
            Some(v) => v,
            None => usize::MAX,
        };
        self.len().saturating_add(overhead)
    }
}

/// Any rope's bytes are valid UTF-8: they concatenate chunks' bytes.
pub broadcast proof fn lemma_rope_view_valid(r: Rope)
    ensures
        #[trigger] valid_utf8(r@),
{
    lemma_chunks_bytes_valid(r.tree.items());
}

impl Default for Rope {
    /// The default document is empty.
    fn default() -> (r: Self)
        ensures
            r@ == Seq::<u8>::empty(),
    {
        Rope::new()
    }
}

impl Clone for Rope {
    /// Cloning shares the chunk tree; the copy is the same document and
    /// stays cheap until one of the two is edited.
    fn clone(&self) -> (r: Self)
        ensures
            r@ == self@,
    {
        proof {
            use_type_invariant(self);
        }
        Rope { tree: self.tree.clone() }
    }
}

} // verus!
