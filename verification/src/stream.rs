//! Decisions around streamed file loading: chunk sizing, when a file is
//! big enough to stream or map, and whether sampled bytes look like text.
//! The reading itself is a caller concern; only the decisions live here.
use vstd::prelude::*;

verus! {

/// Default size of the pieces a file is read in: 64 KiB.
pub const DEFAULT_STREAM_CHUNK: usize = 65536;

/// Files larger than this are streamed rather than read whole: 5 MiB.
pub const STREAM_THRESHOLD: u64 = 5242880;

/// Files larger than this are better memory-mapped: 10 MiB.
pub const MMAP_THRESHOLD: u64 = 10485760;

/// Number of null bytes in a sample.
pub open spec fn null_count(data: Seq<u8>) -> int
    decreases data.len(),
{
    if data.len() == 0 {
        0
    } else {
        null_count(data.drop_last()) + if data.last() == 0 {
            1int
        } else {
            0int
        }
    }
}

/// Whether a sample of bytes looks like text: fewer than one in a
/// hundred bytes is null. An empty sample counts as text.
pub open spec fn looks_like_text(data: Seq<u8>) -> bool {
    100 * null_count(data) < data.len() || data.len() == 0
}

/// Decide from sampled bytes whether a file is text: an empty sample is
/// text, otherwise fewer than one percent of the bytes may be null.
pub fn is_text_content(data: &[u8]) -> (r: bool)
    ensures
        r == looks_like_text(data@),
{
    let n = data.len();
    if n == 0 {
        return true;
    }
    let mut nulls: usize = 0;
    let mut i: usize = 0;
    proof {
        assert(data@.take(0) =~= Seq::<u8>::empty());
    }
    while i < n
        invariant
            n == data@.len(),
            0 <= i <= n,
            nulls <= i,
            nulls == null_count(data@.take(i as int)),
        decreases n - i,
    {
        proof {
            assert(data@.take(i + 1).drop_last() =~= data@.take(i as int));
            assert(data@.take(i + 1).last() == data@[i as int]);
        }
        if data[i] == 0 {
            nulls += 1;
        }
        i += 1;
    }
    proof {
        assert(data@.take(n as int) =~= data@);
    }
    // fewer than 1% nulls: 100 * nulls < n, tested without overflow
    let q = n / 100;
    let rem = n % 100;
    proof {
        assert(n == 100 * (n / 100) + n % 100) by (nonlinear_arith);
        assert(n % 100 < 100) by (nonlinear_arith);
    }
    nulls < q || (nulls == q && rem != 0)
}

/// Reads a file in pieces of a fixed size; the reading happens at the
/// caller, this only fixes the piece size.
#[derive(Debug, Clone, Copy, PartialEq, Eq, Structural)]
pub struct StreamingLoader {
    pub chunk_size: usize,
}

impl StreamingLoader {
    /// A loader reading pieces of the given size.
    pub fn new(chunk_size: usize) -> (r: Self)
        ensures
            r.chunk_size == chunk_size,
    {
        StreamingLoader { chunk_size }
    }

    /// A loader with the default piece size.
    pub fn default() -> (r: Self)
        ensures
            r.chunk_size == DEFAULT_STREAM_CHUNK,
    {
        StreamingLoader { chunk_size: DEFAULT_STREAM_CHUNK }
    }
}

/// What is known about a file before loading it: its size, whether it
/// looks like text, and a line-count estimate when one was sampled.
#[derive(Debug, Clone)]
pub struct FileInfo {
    pub size: u64,
    pub is_text: bool,
    pub line_count_estimate: Option<usize>,
}

impl FileInfo {
    /// Whether the file is large enough to stream.
    pub fn should_stream(&self) -> (r: bool)
        ensures
            r == (self.size > STREAM_THRESHOLD),
    {
        self.size > STREAM_THRESHOLD
    }

    /// Whether the file is large enough to memory-map.
    pub fn should_mmap(&self) -> (r: bool)
        ensures
            r == (self.size > MMAP_THRESHOLD),
    {
        self.size > MMAP_THRESHOLD
    }
}

} // verus!
