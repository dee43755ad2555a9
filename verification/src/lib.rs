//! Verified core of a text editor: a chunked rope with cached line
//! aggregates, byte/line position mapping, a line-offset cache that can
//! never go stale, and an undo/redo history with word-batched
//! transactions.
pub mod text;
pub mod tree;
pub mod chunk;
pub mod rope;
pub mod position;
pub mod line_cache;
pub mod line_index;
pub mod stream;
pub mod buffer;
pub mod history;
pub mod editor;
pub mod laws;

pub use buffer::Buffer;
pub use chunk::{Chunk, TextMetrics};
pub use editor::Editor;
pub use history::{EditKind, History, Transaction};
pub use line_cache::{CacheStats, LineOffsetCache, PredictiveCache, ReusableBuffer, ScrollDirection};
pub use position::{MultiCursor, Offset, Point, Selection};
pub use line_index::{LineIndex, ProgressiveIndexer};
pub use rope::Rope;
pub use stream::{FileInfo, StreamingLoader};
pub use tree::{Count, Cursor, Item, Node, SumTree, SumTreeIter, Summary, TextSummary};
