//! An immutable text fragment: the leaf item of the rope's tree.
//!
//! A chunk owns a piece of UTF-8 text together with the byte offsets of
//! every newline in it, computed once at construction. Its view is the
//! UTF-8 byte sequence of its text; splitting is only allowed at
//! character boundaries, so a chunk never holds half a character.
use vstd::prelude::*;
use vstd::utf8::{encode_utf8, is_char_boundary, valid_utf8};
use crate::text;
use crate::tree::{Item, Summary};

verus! {

broadcast use vstd::utf8::encode_utf8_valid_utf8;


/// Byte length and newline count of a span of text, added pointwise.
/// This is the summary the rope aggregates over its chunks.
#[derive(Debug, Clone, Copy, PartialEq, Eq)]
pub struct TextMetrics {
    /// Byte length.
    pub len: usize,
    /// Number of newline bytes.
    pub lines: usize,
}

impl Summary for TextMetrics {
    open spec fn identity_spec() -> Self {
        TextMetrics { len: 0, lines: 0 }
    }

    open spec fn add_spec(self, other: Self) -> Self {
        TextMetrics {
            len: if self.len + other.len <= usize::MAX {
                (self.len + other.len) as usize
            } else {
                usize::MAX
            },
            lines: if self.lines + other.lines <= usize::MAX {
                (self.lines + other.lines) as usize
            } else {
                usize::MAX
            },
        }
    }

    open spec fn can_add(self, other: Self) -> bool {
        self.len + other.len <= usize::MAX && self.lines + other.lines <= usize::MAX
    }

    fn identity() -> (r: Self) {
        TextMetrics { len: 0, lines: 0 }
    }

    fn add_summary(&self, other: &Self) -> (r: Self) {
        TextMetrics { len: self.len + other.len, lines: self.lines + other.lines }
    }

    proof fn lemma_add_identity(a: Self) {
    }

    proof fn lemma_add_assoc(a: Self, b: Self, c: Self) {
    }

    proof fn lemma_can_add_weaken(a: Self, b: Self, c: Self) {
    }

    proof fn lemma_can_add_merge(a: Self, b: Self, c: Self) {
    }
}

/// A chunk of text with its newline byte offsets cached for O(1) line
/// lookups. Immutable once built.
pub struct Chunk {
    text: String,
    newlines: Vec<usize>,
}

impl View for Chunk {
    type V = Seq<u8>;

    /// The UTF-8 bytes of the chunk's text.
    closed spec fn view(&self) -> Seq<u8> {
        encode_utf8(self.text@)
    }
}

/// Every chunk's bytes are valid UTF-8: they are the encoding of its text.
pub broadcast proof fn lemma_chunk_view_valid(c: Chunk)
    ensures
        #[trigger] valid_utf8(c@),
{
}

impl Chunk {
    /// The cached newline offsets are exactly the newline positions of
    /// the chunk's bytes, and the text fits in memory.
    #[verifier::type_invariant]
    spec fn inv(self) -> bool {
        &&& self.newlines@.map_values(|p: usize| p as int) == text::newlines(self@)
        &&& self@.len() <= usize::MAX
    }

    /// Create a new chunk, scanning its text once for newlines.
    pub fn new(text: String) -> (r: Chunk)
        ensures
            r@ == encode_utf8(text@),
    {
        let bytes: &[u8] = text.as_str().as_bytes();
        let ghost all = bytes@;
        let mut newlines: Vec<usize> = Vec::new();
        let mut i: usize = 0;
        proof {
            assert(all.take(0) =~= Seq::<u8>::empty());
            assert(newlines@.map_values(|p: usize| p as int) =~= text::newlines(all.take(0)));
        }
        while i < bytes.len()
            invariant
                bytes@ == all,
                0 <= i <= all.len(),
                newlines@.map_values(|p: usize| p as int) == text::newlines(all.take(i as int)),
            decreases all.len() - i,
        {
            proof {
                assert(all.take(i + 1) =~= all.take(i as int).push(all[i as int]));
                text::lemma_newlines_push(all.take(i as int), all[i as int]);
            }
            if bytes[i] == 10 {
                newlines.push(i);
                proof {
                    assert(newlines@.map_values(|p: usize| p as int) =~= text::newlines(
                        all.take(i as int),
                    ).push(i as int));
                }
            }
            i += 1;
        }
        proof {
            assert(all.take(all.len() as int) =~= all);
        }
        Chunk { text, newlines }
    }

    /// The chunk's text.
    pub fn as_str(&self) -> (r: &str)
        ensures
            encode_utf8(r@) == self@,
    {
        self.text.as_str()
    }

    /// Byte length.
    pub fn len(&self) -> (r: usize)
        ensures
            r == self@.len(),
    {
        proof {
            use_type_invariant(self);
        }
        self.text.as_str().len()
    }

    /// Whether the chunk holds no text.
    pub fn is_empty(&self) -> (r: bool)
        ensures
            r == (self@.len() == 0),
    {
        proof {
            use_type_invariant(self);
        }
        self.text.as_str().len() == 0
    }

    /// Number of newlines, from the cache.
    pub fn count_lines(&self) -> (r: usize)
        ensures
            r == text::newline_count(self@),
    {
        proof {
            use_type_invariant(self);
        }
        self.newlines.len()
    }

    /// The byte offset of the `line_idx`-th newline, if there is one.
    pub fn get_newline_position(&self, line_idx: usize) -> (r: Option<usize>)
        ensures
            line_idx < text::newline_count(self@) ==> (r matches Some(p) && p == text::newlines(
                self@,
            )[line_idx as int]),
            line_idx >= text::newline_count(self@) ==> r is None,
    {
        proof {
            use_type_invariant(self);
        }
        if line_idx < self.newlines.len() {
            Some(self.newlines[line_idx])
        } else {
            None
        }
    }

    /// All cached newline offsets, in increasing order.
    pub fn newline_positions(&self) -> (r: &[usize])
        ensures
            r@.len() == text::newline_count(self@),
            forall|k: int| 0 <= k < r@.len() ==> #[trigger] r@[k] == text::newlines(self@)[k],
    {
        proof {
            use_type_invariant(self);
            let mapped = self.newlines@.map_values(|p: usize| p as int);
            assert(forall|k: int|
                0 <= k < self.newlines@.len() ==> #[trigger] mapped[k] == self.newlines@[k] as int);
        }
        self.newlines.as_slice()
    }

    /// Split into two chunks at a character boundary.
    pub fn split_at(&self, pos: usize) -> (r: (Chunk, Chunk))
        requires
            is_char_boundary(self@, pos as int),
        ensures
            r.0@ == self@.subrange(0, pos as int),
            r.1@ == self@.subrange(pos as int, self@.len() as int),
    {
        let (left, right) = self.text.as_str().split_at(pos);
        (Chunk::new(left.to_owned()), Chunk::new(right.to_owned()))
    }

    /// The text between two character boundaries, borrowed from the chunk.
    pub fn byte_range_str(&self, start: usize, end: usize) -> (r: &str)
        requires
            start <= end,
            is_char_boundary(self@, start as int),
            is_char_boundary(self@, end as int),
        ensures
            encode_utf8(r@) == self@.subrange(start as int, end as int),
    {
        let (head, _) = self.text.as_str().split_at(end);
        proof {
            if start < end {
                vstd::utf8::is_char_boundary_iff_not_is_continuation_byte(self@, start as int);
                vstd::utf8::valid_utf8_split(self@, end as int);
                assert(encode_utf8(head@) =~= self@.subrange(0, end as int));
                vstd::utf8::is_char_boundary_iff_not_is_continuation_byte(
                    encode_utf8(head@),
                    start as int,
                );
                assert(encode_utf8(head@)[start as int] == self@[start as int]);
            } else {
                vstd::utf8::valid_utf8_split(self@, end as int);
                vstd::utf8::is_char_boundary_start_end_of_seq(encode_utf8(head@));
            }
        }
        let (_, mid) = head.split_at(start);
        proof {
            assert(encode_utf8(head@).subrange(start as int, encode_utf8(head@).len() as int)
                =~= self@.subrange(start as int, end as int));
        }
        mid
    }

    /// A sub-chunk over a byte range whose ends are character boundaries.
    pub fn slice(&self, start: usize, end: usize) -> (r: Chunk)
        requires
            start <= end,
            is_char_boundary(self@, start as int),
            is_char_boundary(self@, end as int),
        ensures
            r@ == self@.subrange(start as int, end as int),
    {
        proof {
            vstd::utf8::valid_utf8_split(self@, end as int);
        }
        let (head, _) = self.split_at(end);
        proof {
            if start < end {
                vstd::utf8::is_char_boundary_iff_not_is_continuation_byte(self@, start as int);
                vstd::utf8::is_char_boundary_iff_not_is_continuation_byte(head@, start as int);
                assert(head@[start as int] == self@[start as int]);
            } else {
                vstd::utf8::is_char_boundary_start_end_of_seq(head@);
            }
        }
        let (_, mid) = head.split_at(start);
        proof {
            assert(head@.subrange(start as int, head@.len() as int) =~= self@.subrange(
                start as int,
                end as int,
            ));
        }
        mid
    }
}

impl Clone for Chunk {
    /// A clone has the same bytes and the same newline cache.
    fn clone(&self) -> (r: Self)
        ensures
            r@ == self@,
    {
        proof {
            use_type_invariant(self);
        }
        let r = Chunk { text: self.text.clone(), newlines: self.newlines.clone() };
        proof {
            assert(r.newlines@ =~= self.newlines@);
            assert(r.inv());
        }
        r
    }
}

impl Item for Chunk {
    type Summary = TextMetrics;

    /// A chunk's summary: its byte length and newline count.
    open spec fn summarize_spec(self) -> TextMetrics {
        TextMetrics {
            len: self@.len() as usize,
            lines: text::newline_count(self@) as usize,
        }
    }

    fn summary(&self) -> (r: TextMetrics) {
        TextMetrics { len: self.len(), lines: self.count_lines() }
    }
}

} // verus!
