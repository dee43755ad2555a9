//! A lazy line index: line-start offsets discovered while a file streams
//! in, without scanning the whole file up front.
use vstd::prelude::*;
use vstd::utf8::encode_utf8;
use crate::text;

verus! {

/// Line-start byte offsets known so far, and whether the whole file has
/// been scanned. Line 0 always starts at offset 0.
#[derive(Debug, Clone)]
pub struct LineIndex {
    offsets: Vec<usize>,
    file_size: usize,
    fully_indexed: bool,
}

impl LineIndex {
    /// The line starts known so far.
    pub closed spec fn offsets_spec(self) -> Seq<usize> {
        self.offsets@
    }

    /// The file's total size in bytes.
    pub closed spec fn size_spec(self) -> usize {
        self.file_size
    }

    /// Whether the whole file has been scanned.
    pub closed spec fn complete_spec(self) -> bool {
        self.fully_indexed
    }

    /// A fresh index: only line 0 is known.
    pub fn new(file_size: usize) -> (r: Self)
        ensures
            r.offsets_spec() == seq![0usize],
            r.size_spec() == file_size,
            !r.complete_spec(),
    {
        let mut offsets: Vec<usize> = Vec::new();
        offsets.push(0);
        proof {
            assert(offsets@ =~= seq![0usize]);
        }
        LineIndex { offsets, file_size, fully_indexed: false }
    }

    /// How many lines have been discovered.
    pub fn known_line_count(&self) -> (r: usize)
        ensures
            r == self.offsets_spec().len(),
    {
        self.offsets.len()
    }

    /// Whether the whole file has been scanned.
    pub fn is_fully_indexed(&self) -> (r: bool)
        ensures
            r == self.complete_spec(),
    {
        self.fully_indexed
    }

    /// Record the start of the next line.
    pub fn add_line(&mut self, byte_offset: usize)
        ensures
            final(self).offsets_spec() == old(self).offsets_spec().push(byte_offset),
            final(self).size_spec() == old(self).size_spec(),
            final(self).complete_spec() == old(self).complete_spec(),
    {
        self.offsets.push(byte_offset);
    }

    /// Mark the scan as finished.
    pub fn mark_complete(&mut self)
        ensures
            final(self).offsets_spec() == old(self).offsets_spec(),
            final(self).size_spec() == old(self).size_spec(),
            final(self).complete_spec(),
    {
        self.fully_indexed = true;
    }

    /// The known start of one line, if it has been discovered.
    pub fn line_offset(&self, line_idx: usize) -> (r: Option<usize>)
        ensures
            line_idx < self.offsets_spec().len() ==> r == Some(
                self.offsets_spec()[line_idx as int],
            ),
            line_idx >= self.offsets_spec().len() ==> r is None,
    {
        if line_idx < self.offsets.len() {
            Some(self.offsets[line_idx])
        } else {
            None
        }
    }

    /// The byte range of one line: its start, and the next line's start
    /// or the file size for the last known line.
    pub fn line_range(&self, line_idx: usize) -> (r: Option<(usize, usize)>)
        ensures
            line_idx < self.offsets_spec().len() ==> r == Some(
                (
                    self.offsets_spec()[line_idx as int],
                    if line_idx + 1 < self.offsets_spec().len() {
                        self.offsets_spec()[line_idx + 1]
                    } else {
                        self.size_spec()
                    },
                ),
            ),
            line_idx >= self.offsets_spec().len() ==> r is None,
    {
        if line_idx < self.offsets.len() {
            let start = self.offsets[line_idx];
            let end = if line_idx + 1 < self.offsets.len() {
                self.offsets[line_idx + 1]
            } else {
                self.file_size
            };
            Some((start, end))
        } else {
            None
        }
    }

    /// Scan one piece of the file, recording a line start after every
    /// newline; when the scan reaches the file size, the index is
    /// complete.
    pub fn index_range(&mut self, piece: &str, start_offset: usize)
        requires
            start_offset + encode_utf8(piece@).len() <= usize::MAX,
        ensures
            ({
                let tb = encode_utf8(piece@);
                &&& final(self).offsets_spec().len() == old(self).offsets_spec().len()
                    + text::newline_count(tb)
                &&& final(self).offsets_spec().take(old(self).offsets_spec().len() as int) == old(
                    self,
                ).offsets_spec()
                &&& (forall|k: int|
                    0 <= k < text::newline_count(tb) ==> final(self).offsets_spec()[old(
                        self,
                    ).offsets_spec().len() + k] == text::newlines(tb)[k] + start_offset + 1)
                &&& final(self).size_spec() == old(self).size_spec()
                &&& final(self).complete_spec() == (old(self).complete_spec() || start_offset
                    + tb.len() >= old(self).size_spec())
            }),
    {
        let bytes = piece.as_bytes();
        let ghost tb = encode_utf8(piece@);
        let ghost base = self.offsets@.len() as int;
        let mut i: usize = 0;
        proof {
            assert(tb.take(0) =~= Seq::<u8>::empty());
            assert(self.offsets@.take(base) =~= self.offsets@);
        }
        while i < bytes.len()
            invariant
                bytes@ == tb,
                start_offset + tb.len() <= usize::MAX,
                0 <= i <= tb.len(),
                base == old(self).offsets_spec().len(),
                self.file_size == old(self).size_spec(),
                self.fully_indexed == old(self).complete_spec(),
                self.offsets@.len() == base + text::newline_count(tb.take(i as int)),
                self.offsets@.take(base) == old(self).offsets_spec(),
                forall|k: int|
                    0 <= k < text::newline_count(tb.take(i as int)) ==> #[trigger] self.offsets@[
                        base + k] == text::newlines(tb.take(i as int))[k] + start_offset + 1,
            decreases tb.len() - i,
        {
            proof {
                assert(tb.take(i + 1) =~= tb.take(i as int).push(tb[i as int]));
                text::lemma_newlines_push(tb.take(i as int), tb[i as int]);
            }
            let b = bytes[i];
            if b == 10 {
                self.offsets.push(start_offset + i + 1);
                proof {
                    assert(self.offsets@.take(base) =~= old(self).offsets_spec());
                }
            }
            i += 1;
        }
        proof {
            assert(tb.take(tb.len() as int) =~= tb);
        }
        if start_offset + bytes.len() >= self.file_size {
            self.fully_indexed = true;
        }
    }
}

/// Feeds a file's pieces to a [`LineIndex`] in order, tracking how far
/// the scan has come.
pub struct ProgressiveIndexer {
    index: LineIndex,
    bytes_indexed: usize,
}

impl ProgressiveIndexer {
    /// The index built so far.
    pub closed spec fn index_spec(self) -> LineIndex {
        self.index
    }

    /// How many bytes have been scanned.
    pub closed spec fn bytes_indexed_spec(self) -> usize {
        self.bytes_indexed
    }

    /// Start indexing a file of the given size.
    pub fn new(file_size: usize) -> (r: Self)
        ensures
            r.index_spec().offsets_spec() == seq![0usize],
            r.index_spec().size_spec() == file_size,
            !r.index_spec().complete_spec(),
            r.bytes_indexed_spec() == 0,
    {
        ProgressiveIndexer { index: LineIndex::new(file_size), bytes_indexed: 0 }
    }

    /// Scan the next piece of the file; true once the whole file has
    /// been scanned.
    pub fn index_chunk(&mut self, piece: &str) -> (r: bool)
        requires
            old(self).bytes_indexed_spec() + encode_utf8(piece@).len() <= usize::MAX,
        ensures
            final(self).bytes_indexed_spec() == old(self).bytes_indexed_spec() + encode_utf8(
                piece@,
            ).len(),
            r == final(self).index_spec().complete_spec(),
            final(self).index_spec().size_spec() == old(self).index_spec().size_spec(),
            final(self).index_spec().complete_spec() == (old(self).index_spec().complete_spec()
                || old(self).bytes_indexed_spec() + encode_utf8(piece@).len() >= old(
                self,
            ).index_spec().size_spec()),
    {
        let chunk_start = self.bytes_indexed;
        self.index.index_range(piece, chunk_start);
        let n = piece.as_bytes().len();
        self.bytes_indexed = self.bytes_indexed + n;
        self.index.is_fully_indexed()
    }

    /// The index built so far.
    pub fn index(&self) -> (r: &LineIndex)
        ensures
            r == self.index_spec(),
    {
        &self.index
    }

    /// Whether the whole file has been scanned.
    pub fn is_complete(&self) -> (r: bool)
        ensures
            r == self.index_spec().complete_spec(),
    {
        self.index.is_fully_indexed()
    }
}

} // verus!
