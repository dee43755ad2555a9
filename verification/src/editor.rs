//! The editor: a buffer with history, a cursor, and the batching policy
//! that decides what one undo step covers.
//!
//! Typed characters accumulate into a pending batch; whitespace is
//! applied directly and then commits the batch as one transaction, so a
//! word undoes in one step. Undo while a batch is pending discards the
//! batch by rolling the live buffer back to the batch's start snapshot —
//! never by committing it first, which would take two undos to reach the
//! prior state.
use vstd::prelude::*;
use vstd::utf8::encode_utf8;
use vstd::string::StringExecFns;
use crate::buffer::Buffer;
use crate::history::{EditKind, History, Transaction};
use crate::position::{Offset, Point, Selection};
use crate::text;

verus! {

broadcast use crate::buffer::lemma_buffer_view_valid;

/// The ASCII whitespace bytes: space, tab, newline, carriage return.
pub open spec fn is_ws_byte(b: u8) -> bool {
    b == 32 || b == 9 || b == 10 || b == 13
}

/// Whether a byte sequence is all whitespace.
pub open spec fn all_ws(t: Seq<u8>) -> bool {
    forall|i: int| 0 <= i < t.len() ==> is_ws_byte(#[trigger] t[i])
}

/// An edit counter advanced by one, wrapping at the top.
pub open spec fn bumped(v: u64) -> u64 {
    if v < u64::MAX {
        (v + 1) as u64
    } else {
        0
    }
}

/// A document with `nt` spliced in at byte offset `off`.
pub open spec fn spliced(s: Seq<u8>, off: int, nt: Seq<u8>) -> Seq<u8> {
    s.take(off) + nt + s.skip(off)
}

/// How committing the pending batch (if any) relates an editor state to
/// the one after: the document and version are untouched, the batch is
/// gone, and either nothing changes or exactly one insert transaction —
/// covering the batch's text, from its start cursor to the pre-commit
/// cursor, over its start snapshot — lands on the undo stack and clears
/// the redo stack.
pub open spec fn commits_pending(pre: Editor, post: Editor) -> bool {
    &&& post.text_view() == pre.text_view()
    &&& post.version_spec() == pre.version_spec()
    &&& post.pending_view().len() == 0
    &&& (pre.pending_view().len() == 0 ==> post.undo_views() == pre.undo_views()
        && post.redo_views() == pre.redo_views())
    &&& (pre.pending_view().len() > 0 ==> {
        &&& post.undo_views().len() == pre.undo_views().len() + 1
        &&& post.undo_views().drop_last() == pre.undo_views()
        &&& post.undo_views().last().0 == pre.pending_buffer_view()
        &&& post.undo_views().last().1.cursor_before == pre.pending_cursor_spec()->Some_0
        &&& post.undo_views().last().1.cursor_after == pre.cursor_spec()
        &&& (post.undo_views().last().1.edit matches EditKind::Insert { text } && encode_utf8(
            text@,
        ) == pre.pending_view())
        &&& post.redo_views().len() == 0
    })
}

/// An editor: the sole mutation surface a front end needs. Owns the
/// history, the cursor, and the pending word batch.
pub struct Editor {
    history: History,
    selection: Selection,
    version: u64,
    pending_insert: String,
    pending_start_cursor: Option<Point>,
    pending_start_buffer: Option<Box<Buffer>>,
}

impl Editor {
    /// The document's bytes.
    pub closed spec fn text_view(self) -> Seq<u8> {
        self.history.current_view()
    }

    /// The cursor.
    pub closed spec fn cursor_spec(self) -> Point {
        self.selection.end
    }

    /// The selection.
    pub closed spec fn selection_spec(self) -> Selection {
        self.selection
    }

    /// The edit counter.
    pub closed spec fn version_spec(self) -> u64 {
        self.version
    }

    /// The bytes of the uncommitted batch.
    pub closed spec fn pending_view(self) -> Seq<u8> {
        encode_utf8(self.pending_insert@)
    }

    /// Where the uncommitted batch started.
    pub closed spec fn pending_cursor_spec(self) -> Option<Point> {
        self.pending_start_cursor
    }

    /// The document as it stood before the uncommitted batch.
    pub closed spec fn pending_buffer_view(self) -> Seq<u8> {
        match self.pending_start_buffer {
            Some(b) => (*b)@,
            None => Seq::empty(),
        }
    }

    /// The committed edits waiting to be undone.
    pub closed spec fn undo_views(self) -> Seq<(Seq<u8>, Transaction)> {
        self.history.undo_views()
    }

    /// The undone edits waiting to be redone.
    pub closed spec fn redo_views(self) -> Seq<(Seq<u8>, Transaction)> {
        self.history.redo_views()
    }

    /// The history is consistent and the three pending fields are either
    /// all absent (no batch) or all present.
    pub closed spec fn wf(self) -> bool {
        &&& self.history.wf()
        &&& (self.pending_start_buffer matches Some(b) ==> (*b).wf())
        &&& (self.pending_insert@.len() == 0 <==> self.pending_start_cursor is None)
        &&& (self.pending_start_cursor is None <==> self.pending_start_buffer is None)
    }

    /// An empty editor: no text, cursor at the origin, nothing pending.
    pub fn new() -> (r: Editor)
        ensures
            r.wf(),
            r.text_view() == Seq::<u8>::empty(),
            r.cursor_spec() == (Point { row: 0, column: 0 }),
            r.version_spec() == 0,
            r.pending_view().len() == 0,
            r.undo_views().len() == 0,
            r.redo_views().len() == 0,
    {
        let r = Editor {
            history: History::new(Buffer::new()),
            selection: Selection::cursor(Point::new(0, 0)),
            version: 0,
            pending_insert: String::new(),
            pending_start_cursor: None,
            pending_start_buffer: None,
        };
        proof {
            text::lemma_encode_len_zero(r.pending_insert@);
        }
        r
    }

    /// An editor over existing text, cursor at the origin.
    pub fn from_text(text: &str) -> (r: Editor)
        ensures
            r.wf(),
            r.text_view() == encode_utf8(text@),
            r.cursor_spec() == (Point { row: 0, column: 0 }),
            r.version_spec() == 0,
            r.pending_view().len() == 0,
            r.undo_views().len() == 0,
            r.redo_views().len() == 0,
    {
        let r = Editor {
            history: History::new(Buffer::from_text(text)),
            selection: Selection::cursor(Point::new(0, 0)),
            version: 0,
            pending_insert: String::new(),
            pending_start_cursor: None,
            pending_start_buffer: None,
        };
        proof {
            text::lemma_encode_len_zero(r.pending_insert@);
        }
        r
    }

    /// The live buffer.
    pub fn buffer(&self) -> (r: &Buffer)
        requires
            self.wf(),
        ensures
            r@ == self.text_view(),
            r.wf(),
    {
        self.history.current()
    }

    /// The cursor position.
    pub fn cursor(&self) -> (r: Point)
        ensures
            r == self.cursor_spec(),
    {
        self.selection.end
    }

    /// Move only the cursor; every other field keeps its value.
    fn place_cursor(&mut self, point: Point)
        ensures
            *final(self) == (Editor {
                selection: Selection { start: point, end: point },
                ..*old(self)
            }),
    {
        self.selection = Selection::cursor(point);
    }

    /// Place the cursor, collapsing the selection to it. Everything else
    /// — text, history, pending batch, version — stays as it was.
    pub fn set_cursor(&mut self, point: Point)
        ensures
            final(self).selection_spec() == (Selection { start: point, end: point }),
            final(self).cursor_spec() == point,
            final(self).text_view() == old(self).text_view(),
            final(self).version_spec() == old(self).version_spec(),
            final(self).pending_view() == old(self).pending_view(),
            final(self).pending_cursor_spec() == old(self).pending_cursor_spec(),
            final(self).pending_buffer_view() == old(self).pending_buffer_view(),
            final(self).undo_views() == old(self).undo_views(),
            final(self).redo_views() == old(self).redo_views(),
            final(self).wf() == old(self).wf(),
    {
        self.place_cursor(point);
    }

    /// The selection.
    pub fn selection(&self) -> (r: Selection)
        ensures
            r == self.selection_spec(),
    {
        self.selection
    }

    /// The edit counter: changes whenever the document does, so a
    /// renderer can invalidate its own caches.
    pub fn version(&self) -> (r: u64)
        ensures
            r == self.version_spec(),
    {
        self.version
    }

    /// The document as one string.
    pub fn text(&self) -> (r: String)
        requires
            self.wf(),
        ensures
            encode_utf8(r@) == self.text_view(),
    {
        self.history.current().to_string()
    }

    /// Number of lines of the document.
    pub fn line_count(&self) -> (r: usize)
        requires
            self.wf(),
        ensures
            r == if text::newline_count(self.text_view()) < usize::MAX {
                text::newline_count(self.text_view()) + 1
            } else {
                usize::MAX as int
            },
    {
        self.history.current().line_count()
    }

    /// Whether an undo step is available: a committed edit, or an
    /// uncommitted batch that undo would discard.
    pub fn can_undo(&self) -> (r: bool)
        ensures
            r == (self.undo_views().len() > 0 || self.pending_view().len() > 0),
    {
        proof {
            text::lemma_encode_len_zero(self.pending_insert@);
        }
        !self.pending_insert.as_str().is_empty() || self.history.can_undo()
    }

    /// Whether a redo step is available.
    pub fn can_redo(&self) -> (r: bool)
        ensures
            r == (self.redo_views().len() > 0),
    {
        self.history.can_redo()
    }

    /// Commit the pending batch, if any, as one transaction: the buffer
    /// from before the batch goes onto the undo stack, the live buffer
    /// stays as it is, and the redo stack is cleared.
    fn flush_pending_insert(&mut self)
        requires
            old(self).wf(),
        ensures
            final(self).wf(),
            final(self).cursor_spec() == old(self).cursor_spec(),
            commits_pending(*old(self), *final(self)),
    {
        proof {
            text::lemma_encode_len_zero(self.pending_insert@);
        }
        if self.pending_insert.as_str().is_empty() {
            return;
        }
        let start_cursor = match self.pending_start_cursor {
            Some(p) => p,
            None => {
                proof {
                    assert(false);
                }
                Point::new(0, 0)
            },
        };
        let before_buffer = match self.pending_start_buffer.take() {
            Some(b) => *b,
            None => {
                proof {
                    assert(false);
                }
                Buffer::new()
            },
        };
        let mut pending = String::new();
        std::mem::swap(&mut self.pending_insert, &mut pending);
        let transaction = Transaction::insert(pending, start_cursor, self.cursor());
        let after_buffer = self.history.current().clone();
        self.history.push(before_buffer, after_buffer, transaction);
        self.pending_start_cursor = None;
        proof {
            text::lemma_encode_len_zero(self.pending_insert@);
            assert(final(self).undo_views().drop_last() =~= old(self).undo_views());
        }
    }

    /// Type text at the cursor. Whitespace is applied and then commits
    /// the pending batch — cursor and snapshots included — while any
    /// other text extends the batch; either way the keystroke is visible
    /// at once.
    pub fn insert(&mut self, new_text: &str)
        requires
            old(self).wf(),
            old(self).text_view().len() + encode_utf8(new_text@).len() <= usize::MAX,
        ensures
            final(self).wf(),
            ({
                let s = old(self).text_view();
                let nt = encode_utf8(new_text@);
                let cb = old(self).cursor_spec();
                let off = text::point_offset(s, cb.row as int, cb.column as int);
                let s2 = spliced(s, off, nt);
                &&& final(self).text_view() == s2
                &&& final(self).cursor_spec() == (Point {
                    row: text::line_at(s2, off + nt.len()) as usize,
                    column: text::column_at(s2, off + nt.len()) as usize,
                })
                &&& final(self).version_spec() == bumped(old(self).version_spec())
                &&& (all_ws(nt) ==> {
                    &&& final(self).pending_view().len() == 0
                    &&& (old(self).pending_view().len() == 0 ==> final(self).undo_views() == old(self).undo_views() && final(self).redo_views() == old(self).redo_views())
                    &&& (old(self).pending_view().len() > 0 ==> {
                        &&& final(self).undo_views().len() == old(self).undo_views().len() + 1
                        &&& final(self).undo_views().drop_last() == old(self).undo_views()
                        &&& final(self).undo_views().last().0 == old(self).pending_buffer_view()
                        &&& final(self).undo_views().last().1.cursor_before == old(self).pending_cursor_spec()->Some_0
                        &&& final(self).undo_views().last().1.cursor_after == final(self).cursor_spec()
                        &&& (final(self).undo_views().last().1.edit matches EditKind::Insert {
                            text,
                        } && encode_utf8(text@) == old(self).pending_view())
                        &&& final(self).redo_views().len() == 0
                    })
                })
                &&& (!all_ws(nt) ==> {
                    &&& final(self).undo_views() == old(self).undo_views()
                    &&& final(self).redo_views() == old(self).redo_views()
                    &&& final(self).pending_view() == old(self).pending_view() + nt
                    &&& (old(self).pending_view().len() == 0 ==> final(self).pending_cursor_spec()
                        == Some(cb) && final(self).pending_buffer_view() == s)
                    &&& (old(self).pending_view().len() > 0 ==> final(self).pending_cursor_spec()
                        == old(self).pending_cursor_spec() && final(self).pending_buffer_view()
                        == old(self).pending_buffer_view())
                })
            }),
    {
        let ghost s = old(self).text_view();
        let ghost nt = encode_utf8(new_text@);
        let cursor_before = self.cursor();

        // decide whether the text is pure whitespace
        let bytes = new_text.as_bytes();
        let mut is_ws = true;
        let mut i: usize = 0;
        while i < bytes.len()
            invariant
                bytes@ == nt,
                0 <= i <= nt.len(),
                is_ws == all_ws(nt.take(i as int)),
            decreases nt.len() - i,
        {
            proof {
                assert(nt.take(i + 1) =~= nt.take(i as int).push(nt[i as int]));
                assert(forall|j: int| 0 <= j < i ==> nt.take(i + 1)[j] == nt.take(i as int)[j]);
            }
            let b = bytes[i];
            if !(b == 32 || b == 9 || b == 10 || b == 13) {
                is_ws = false;
                proof {
                    assert(!is_ws_byte(nt.take(i + 1)[i as int]));
                }
            }
            i += 1;
        }
        proof {
            assert(nt.take(nt.len() as int) =~= nt);
        }

        // capture the batch start before the edit, if a batch is starting
        if !is_ws && self.pending_start_cursor.is_none() {
            self.pending_start_cursor = Some(cursor_before);
            self.pending_start_buffer = Some(Box::new(self.history.current().clone()));
            proof {
                text::lemma_encode_len_zero(self.pending_insert@);
            }
        }

        // apply the edit to a copy of the live buffer
        let live = self.history.current();
        let offset = live.point_to_offset(cursor_before);
        proof {
            assert(vstd::utf8::valid_utf8(live@));
            text::lemma_point_offset_boundary(s, cursor_before.row as int,
                cursor_before.column as int);
        }
        let mut new_buffer = live.clone();
        new_buffer.insert(offset, new_text);
        let new_offset = offset.value() + new_text.len();
        let cursor_after = new_buffer.offset_to_point(Offset(new_offset));
        self.history.update_current(new_buffer);
        self.place_cursor(cursor_after);
        self.version = self.version.wrapping_add(1);

        if is_ws {
            self.flush_pending_insert();
        } else {
            self.pending_insert.append(new_text);
            proof {
                text::lemma_encode_utf8_concat(old(self).pending_insert@, new_text@);
            }
        }
    }

    /// Where the cursor lands after replacing the whole document with
    /// text `s2`: on its old row with the column clamped to that line's
    /// characters when the new text still has the row; else at the end of
    /// the new text's last line; at the origin when that line is absent
    /// (an empty trailing line or an empty document).
    pub open spec fn replace_cursor(s2: Seq<u8>, cb: Point) -> Point {
        let cnt = text::newline_count(s2);
        if cb.row <= cnt {
            if text::line_exists(s2, cb.row as int) {
                Point {
                    row: cb.row,
                    column: if cb.column as int <= Self::line_chars(s2, cb.row as int) {
                        cb.column
                    } else {
                        Self::line_chars(s2, cb.row as int) as usize
                    },
                }
            } else {
                Point { row: 0, column: 0 }
            }
        } else {
            if text::line_exists(s2, cnt) {
                Point { row: cnt as usize, column: Self::line_chars(s2, cnt) as usize }
            } else {
                Point { row: 0, column: 0 }
            }
        }
    }

    /// The point one character to the left of `p` in `s`: the previous
    /// column, or the end of the previous line.
    pub open spec fn prev_point(s: Seq<u8>, p: Point) -> Point {
        if p.column > 0 {
            Point { row: p.row, column: (p.column - 1) as usize }
        } else {
            Point {
                row: (p.row - 1) as usize,
                column: if text::line_exists(s, p.row - 1) {
                    text::chars_in(text::line_bytes(s, p.row - 1)) as usize
                } else {
                    0
                },
            }
        }
    }

    /// Delete the character before the cursor as one committed edit;
    /// the pending batch is committed first. At the very start of the
    /// document nothing happens.
    pub fn backspace(&mut self)
        requires
            old(self).wf(),
        ensures
            final(self).wf(),
            final(self).pending_view().len() == 0,
            ({
                let s = old(self).text_view();
                let cb = old(self).cursor_spec();
                let off = text::point_offset(s, cb.row as int, cb.column as int);
                let pv = Self::prev_point(s, cb);
                let start = text::point_offset(s, pv.row as int, pv.column as int);
                let s2 = s.take(start) + s.skip(off);
                if (cb.row == 0 && cb.column == 0) || off == 0 {
                    &&& final(self).text_view() == s
                    &&& final(self).cursor_spec() == cb
                    &&& final(self).version_spec() == old(self).version_spec()
                } else {
                    &&& final(self).text_view() == s2
                    &&& final(self).cursor_spec() == (Point {
                        row: text::line_at(s2, start) as usize,
                        column: text::column_at(s2, start) as usize,
                    })
                    &&& final(self).version_spec() == bumped(old(self).version_spec())
                    &&& final(self).redo_views().len() == 0
                    &&& final(self).undo_views().len() > 0
                    &&& final(self).undo_views().last().0 == s
                    &&& final(self).undo_views().last().1.cursor_before == cb
                    &&& final(self).undo_views().last().1.cursor_after == final(self).cursor_spec()
                    &&& (final(self).undo_views().last().1.edit matches EditKind::Delete { text }
                        && encode_utf8(text@) == s.subrange(start, off))
                    &&& (old(self).pending_view().len() == 0 ==> final(self).undo_views().drop_last() == old(self).undo_views())
                    &&& (old(self).pending_view().len() > 0 ==> final(self).undo_views().len()
                        == old(self).undo_views().len() + 2 && final(self).undo_views().drop_last().drop_last() == old(self).undo_views())
                }
            }),
    {
        let ghost s = old(self).text_view();
        self.flush_pending_insert();
        let cb = self.cursor();
        if cb.row == 0 && cb.column == 0 {
            return;
        }
        let live = self.history.current();
        let cursor_offset = live.point_to_offset(cb);
        proof {
            assert(vstd::utf8::valid_utf8(live@));
            text::lemma_point_offset_boundary(s, cb.row as int, cb.column as int);
        }
        if cursor_offset.value() == 0 {
            return;
        }
        let prev = if cb.column > 0 {
            Point::new(cb.row, cb.column - 1)
        } else {
            match live.line(cb.row - 1) {
                Some(t) => {
                    let bytes = t.as_str().as_bytes();
                    let chars = crate::rope::chars_in_range(bytes, 0, bytes.len());
                    proof {
                        assert(bytes@.subrange(0, bytes@.len() as int) =~= bytes@);
                    }
                    Point::new(cb.row - 1, chars)
                },
                None => Point::new(cb.row - 1, 0),
            }
        };
        let start = live.point_to_offset(prev);
        proof {
            assert(prev == Self::prev_point(s, cb));
            text::lemma_point_offset_boundary(s, prev.row as int, prev.column as int);
            // the previous point never lies past the cursor
            text::lemma_first_chars_len_bounds(
                text::line_bytes(s, cb.row as int),
                cb.column as int,
            );
            if cb.column > 0 {
                text::lemma_first_chars_monotone(
                    text::line_bytes(s, cb.row as int),
                    cb.column - 1,
                    cb.column as int,
                );
            } else {
                text::lemma_newlines_sound(s);
                let lbp = text::line_bytes(s, cb.row - 1);
                text::lemma_first_chars_exact(lbp, lbp.len() as int);
                assert(lbp.take(lbp.len() as int) =~= lbp);
                text::lemma_first_chars_monotone(lbp, text::chars_in(lbp), prev.column as int);
                text::lemma_first_chars_monotone(lbp, prev.column as int, text::chars_in(lbp));
                text::lemma_chars_le_len(lbp);
                text::lemma_first_chars_len_bounds(lbp, prev.column as int);
                text::lemma_first_chars_len_bounds(text::line_bytes(s, cb.row as int), 0);
            }
            assert(start.0 <= cursor_offset.0);
        }
        let deleted_text = live.slice_bytes(start.value(), cursor_offset.value());
        let old_buffer = live.clone();
        let mut new_buffer = old_buffer.clone();
        new_buffer.delete(start, cursor_offset);
        let cursor_after = new_buffer.offset_to_point(start);
        proof {
            assert(start.0 <= new_buffer@.len());
        }
        let transaction = Transaction::delete(deleted_text, cb, cursor_after);
        self.history.push(old_buffer, new_buffer, transaction);
        self.place_cursor(cursor_after);
        self.version = self.version.wrapping_add(1);
        proof {
            text::lemma_encode_len_zero(self.pending_insert@);
            if old(self).pending_view().len() == 0 {
            } else {
                assert(final(self).undo_views().drop_last().drop_last() =~= old(self).undo_views());
            }
            if start.0 < cursor_offset.0 {
            } else {
                assert(s.subrange(start.0 as int, cursor_offset.0 as int) =~= Seq::<u8>::empty());
                assert(deleted_text@.len() == 0);
                assert(encode_utf8(deleted_text@) =~= Seq::<u8>::empty());
            }
        }
    }

    /// Delete the character under the cursor as one committed edit; the
    /// pending batch is committed first. The cursor stays put. At the
    /// very end of the document nothing happens.
    pub fn delete(&mut self)
        requires
            old(self).wf(),
        ensures
            final(self).wf(),
            final(self).pending_view().len() == 0,
            final(self).cursor_spec() == old(self).cursor_spec(),
            ({
                let s = old(self).text_view();
                let cb = old(self).cursor_spec();
                let off = text::point_offset(s, cb.row as int, cb.column as int);
                let row = text::line_at(s, off);
                let col = text::column_at(s, off);
                let end = if off == text::end_of_line(s, row) {
                    off + 1
                } else {
                    text::point_offset(s, row, col + 1)
                };
                if off >= s.len() {
                    &&& final(self).text_view() == s
                    &&& final(self).version_spec() == old(self).version_spec()
                } else {
                    &&& final(self).text_view() == s.take(off) + s.skip(end)
                    &&& final(self).version_spec() == bumped(old(self).version_spec())
                    &&& final(self).redo_views().len() == 0
                    &&& final(self).undo_views().len() > 0
                    &&& final(self).undo_views().last().0 == s
                    &&& final(self).undo_views().last().1.cursor_before == cb
                    &&& final(self).undo_views().last().1.cursor_after == cb
                    &&& (final(self).undo_views().last().1.edit matches EditKind::Delete { text }
                        && encode_utf8(text@) == s.subrange(off, end))
                    &&& (old(self).pending_view().len() == 0 ==> final(self).undo_views().drop_last() == old(self).undo_views())
                    &&& (old(self).pending_view().len() > 0 ==> final(self).undo_views().len()
                        == old(self).undo_views().len() + 2 && final(self).undo_views().drop_last().drop_last() == old(self).undo_views())
                }
            }),
    {
        let ghost s = old(self).text_view();
        self.flush_pending_insert();
        let cb = self.cursor();
        let live = self.history.current();
        let cursor_offset = live.point_to_offset(cb);
        let len = live.len();
        proof {
            assert(vstd::utf8::valid_utf8(live@));
            text::lemma_point_offset_boundary(s, cb.row as int, cb.column as int);
        }
        if cursor_offset.value() >= len {
            return;
        }
        let p = live.offset_to_point(cursor_offset);
        proof {
            text::lemma_point_offset_round_trip(s, cursor_offset.0 as int);
            text::lemma_start_le(s, cursor_offset.0 as int);
            text::lemma_newlines_sound(s);
            text::lemma_newlines_prefix(s, cursor_offset.0 as int);
            text::lemma_chars_le_len(
                s.subrange(
                    text::start_of_line(s, text::line_at(s, cursor_offset.0 as int)),
                    cursor_offset.0 as int,
                ),
            );
        }
        let end = match live.line_byte_range(p.row) {
            Some((_, b)) => {
                if cursor_offset.value() == b {
                    proof {
                        assert(0 <= (p.row as int) < text::newline_count(s));
                        assert(s[cursor_offset.0 as int] == text::nl());
                        text::lemma_boundary_after_newline(s, cursor_offset.0 as int);
                    }
                    Offset(cursor_offset.value() + 1)
                } else {
                    proof {
                        text::lemma_point_offset_boundary(s, p.row as int, p.column + 1);
                        text::lemma_first_chars_monotone(
                            text::line_bytes(s, p.row as int),
                            p.column as int,
                            p.column + 1,
                        );
                    }
                    live.point_to_offset(Point::new(p.row, p.column + 1))
                }
            },
            None => {
                proof {
                    assert(false);
                }
                Offset(cursor_offset.value())
            },
        };
        let deleted_text = live.slice_bytes(cursor_offset.value(), end.value());
        let old_buffer = live.clone();
        let mut new_buffer = old_buffer.clone();
        new_buffer.delete(cursor_offset, end);
        let transaction = Transaction::delete(deleted_text, cb, cb);
        self.history.push(old_buffer, new_buffer, transaction);
        self.version = self.version.wrapping_add(1);
        proof {
            text::lemma_encode_len_zero(self.pending_insert@);
            if old(self).pending_view().len() > 0 {
                assert(final(self).undo_views().drop_last().drop_last() =~= old(self).undo_views());
            }
            if cursor_offset.0 < end.0 {
            } else {
                assert(s.subrange(cursor_offset.0 as int, end.0 as int) =~= Seq::<u8>::empty());
                assert(encode_utf8(deleted_text@) =~= Seq::<u8>::empty());
            }
        }
    }

    /// Characters on line `row`, or 0 where the line does not exist.
    pub open spec fn line_chars(s: Seq<u8>, row: int) -> int {
        if text::line_exists(s, row) {
            text::chars_in(text::line_bytes(s, row))
        } else {
            0
        }
    }

    /// Count the characters of one line of the live buffer.
    fn line_char_count(&self, row: usize) -> (r: usize)
        requires
            self.wf(),
        ensures
            r == Self::line_chars(self.text_view(), row as int),
    {
        match self.history.current().line(row) {
            Some(t) => {
                let bytes = t.as_str().as_bytes();
                let chars = crate::rope::chars_in_range(bytes, 0, bytes.len());
                proof {
                    assert(bytes@.subrange(0, bytes@.len() as int) =~= bytes@);
                }
                chars
            },
            None => 0,
        }
    }

    /// Move the cursor one character left, wrapping to the end of the
    /// previous line; the pending batch is committed first.
    pub fn move_left(&mut self)
        requires
            old(self).wf(),
        ensures
            final(self).wf(),
            commits_pending(*old(self), *final(self)),
            ({
                let cb = old(self).cursor_spec();
                final(self).cursor_spec() == if cb.column > 0 || cb.row > 0 {
                    Self::prev_point(old(self).text_view(), cb)
                } else {
                    cb
                }
            }),
    {
        self.flush_pending_insert();
        let cb = self.cursor();
        if cb.column > 0 {
            self.place_cursor(Point::new(cb.row, cb.column - 1));
        } else if cb.row > 0 {
            let chars = self.line_char_count(cb.row - 1);
            self.place_cursor(Point::new(cb.row - 1, chars));
        }
    }

    /// Move the cursor one character right, wrapping to the start of the
    /// next line; the pending batch is committed first.
    pub fn move_right(&mut self)
        requires
            old(self).wf(),
            text::newline_count(old(self).text_view()) < usize::MAX,
        ensures
            final(self).wf(),
            commits_pending(*old(self), *final(self)),
            ({
                let s = old(self).text_view();
                let cb = old(self).cursor_spec();
                final(self).cursor_spec() == if !text::line_exists(s, cb.row as int) {
                    cb
                } else if (cb.column as int) < Self::line_chars(s, cb.row as int) {
                    Point { row: cb.row, column: (cb.column + 1) as usize }
                } else if (cb.row as int) < text::newline_count(s) {
                    Point { row: (cb.row + 1) as usize, column: 0 }
                } else {
                    cb
                }
            }),
    {
        let ghost s = old(self).text_view();
        self.flush_pending_insert();
        let cb = self.cursor();
        let exists = match self.history.current().line(cb.row) {
            Some(_) => true,
            None => false,
        };
        if !exists {
            return;
        }
        let chars = self.line_char_count(cb.row);
        proof {
            text::lemma_newline_count_le_len(s);
            text::lemma_chars_le_len(text::line_bytes(s, cb.row as int));
        }
        if cb.column < chars {
            self.place_cursor(Point::new(cb.row, cb.column + 1));
        } else {
            let total = self.line_count();
            if cb.row < total - 1 {
                self.place_cursor(Point::new(cb.row + 1, 0));
            }
        }
    }

    /// Move the cursor one line up, clamping the column to the target
    /// line; the pending batch is committed first.
    pub fn move_up(&mut self)
        requires
            old(self).wf(),
        ensures
            final(self).wf(),
            commits_pending(*old(self), *final(self)),
            ({
                let s = old(self).text_view();
                let cb = old(self).cursor_spec();
                final(self).cursor_spec() == if cb.row > 0 {
                    Point {
                        row: (cb.row - 1) as usize,
                        column: if cb.column as int <= Self::line_chars(s, cb.row - 1) {
                            cb.column as usize
                        } else {
                            Self::line_chars(s, cb.row - 1) as usize
                        },
                    }
                } else {
                    cb
                }
            }),
    {
        let ghost s = old(self).text_view();
        self.flush_pending_insert();
        let cb = self.cursor();
        if cb.row > 0 {
            let chars = self.line_char_count(cb.row - 1);
            let column = if cb.column < chars {
                cb.column
            } else {
                chars
            };
            proof {
                text::lemma_chars_le_len(text::line_bytes(s, cb.row - 1));
            }
            self.place_cursor(Point::new(cb.row - 1, column));
        }
    }

    /// Move the cursor one line down, clamping the column to the target
    /// line; the pending batch is committed first.
    pub fn move_down(&mut self)
        requires
            old(self).wf(),
            text::newline_count(old(self).text_view()) < usize::MAX,
        ensures
            final(self).wf(),
            commits_pending(*old(self), *final(self)),
            ({
                let s = old(self).text_view();
                let cb = old(self).cursor_spec();
                final(self).cursor_spec() == if (cb.row as int) < text::newline_count(s) {
                    Point {
                        row: (cb.row + 1) as usize,
                        column: if cb.column as int <= Self::line_chars(s, cb.row + 1) {
                            cb.column as usize
                        } else {
                            Self::line_chars(s, cb.row + 1) as usize
                        },
                    }
                } else {
                    cb
                }
            }),
    {
        let ghost s = old(self).text_view();
        self.flush_pending_insert();
        let cb = self.cursor();
        let total = self.line_count();
        proof {
            text::lemma_newline_count_le_len(s);
        }
        if cb.row < total - 1 {
            let chars = self.line_char_count(cb.row + 1);
            let column = if cb.column < chars {
                cb.column
            } else {
                chars
            };
            proof {
                text::lemma_chars_le_len(text::line_bytes(s, cb.row + 1));
            }
            self.place_cursor(Point::new(cb.row + 1, column));
        }
    }

    /// Move the cursor to the start of its line; the pending batch is
    /// committed first.
    pub fn move_to_line_start(&mut self)
        requires
            old(self).wf(),
        ensures
            final(self).wf(),
            commits_pending(*old(self), *final(self)),
            final(self).cursor_spec() == (Point { row: old(self).cursor_spec().row, column: 0 }),
    {
        self.flush_pending_insert();
        let cb = self.cursor();
        self.place_cursor(Point::new(cb.row, 0));
    }

    /// Move the cursor past the last character of its line; the pending
    /// batch is committed first. Where the line does not exist the
    /// cursor stays.
    pub fn move_to_line_end(&mut self)
        requires
            old(self).wf(),
        ensures
            final(self).wf(),
            commits_pending(*old(self), *final(self)),
            ({
                let s = old(self).text_view();
                let cb = old(self).cursor_spec();
                final(self).cursor_spec() == if text::line_exists(s, cb.row as int) {
                    Point { row: cb.row, column: Self::line_chars(s, cb.row as int) as usize }
                } else {
                    cb
                }
            }),
    {
        let ghost s = old(self).text_view();
        self.flush_pending_insert();
        let cb = self.cursor();
        let exists = match self.history.current().line(cb.row) {
            Some(_) => true,
            None => false,
        };
        if exists {
            let chars = self.line_char_count(cb.row);
            proof {
                text::lemma_chars_le_len(text::line_bytes(s, cb.row as int));
            }
            self.place_cursor(Point::new(cb.row, chars));
        }
    }

    /// Replace the whole document as one committed edit, keeping the
    /// cursor on its row if the new text still has it, clamped to the
    /// line, and at the end of the last line otherwise; the pending batch
    /// is committed first.
    pub fn replace_all(&mut self, new_text: &str)
        requires
            old(self).wf(),
            encode_utf8(new_text@).len() < usize::MAX,
        ensures
            final(self).wf(),
            final(self).pending_view().len() == 0,
            final(self).text_view() == encode_utf8(new_text@),
            final(self).cursor_spec() == Self::replace_cursor(
                encode_utf8(new_text@),
                old(self).cursor_spec(),
            ),
            final(self).version_spec() == bumped(old(self).version_spec()),
            final(self).redo_views().len() == 0,
            final(self).undo_views().len() > 0,
            final(self).undo_views().last().0 == old(self).text_view(),
            final(self).undo_views().last().1.cursor_before == old(self).cursor_spec(),
            final(self).undo_views().last().1.cursor_after == final(self).cursor_spec(),
            (final(self).undo_views().last().1.edit matches EditKind::Replace {
                old_text,
                new_text: nt,
            } && encode_utf8(old_text@) == old(self).text_view() && encode_utf8(nt@)
                == encode_utf8(new_text@)),
            old(self).pending_view().len() == 0 ==> final(self).undo_views().drop_last() == old(self).undo_views(),
            old(self).pending_view().len() > 0 ==> final(self).undo_views().len() == old(self).undo_views().len() + 2 && final(self).undo_views().drop_last().drop_last() == old(self).undo_views(),
    {
        self.flush_pending_insert();
        let old_cursor = self.cursor();
        let old_buffer = self.history.current().clone();
        let old_text = self.history.current().to_string();
        let new_buffer = Buffer::from_text(new_text);
        let ghost s2 = encode_utf8(new_text@);
        proof {
            text::lemma_newline_count_le_len(s2);
        }
        let total = new_buffer.line_count();
        let new_cursor = if old_cursor.row < total {
            match new_buffer.line(old_cursor.row) {
                Some(t) => {
                    let bytes = t.as_str().as_bytes();
                    let chars = crate::rope::chars_in_range(bytes, 0, bytes.len());
                    proof {
                        assert(bytes@.subrange(0, bytes@.len() as int) =~= bytes@);
                    }
                    let column = if old_cursor.column < chars {
                        old_cursor.column
                    } else {
                        chars
                    };
                    Point::new(old_cursor.row, column)
                },
                None => Point::new(0, 0),
            }
        } else {
            let last_row = total - 1;
            match new_buffer.line(last_row) {
                Some(t) => {
                    let bytes = t.as_str().as_bytes();
                    let chars = crate::rope::chars_in_range(bytes, 0, bytes.len());
                    proof {
                        assert(bytes@.subrange(0, bytes@.len() as int) =~= bytes@);
                    }
                    Point::new(last_row, chars)
                },
                None => Point::new(0, 0),
            }
        };
        proof {
            assert(new_cursor == Self::replace_cursor(s2, old_cursor));
        }
        let owned_new = new_text.to_owned();
        let transaction = Transaction::replace(old_text, owned_new, old_cursor, new_cursor);
        self.history.push(old_buffer, new_buffer, transaction);
        self.place_cursor(new_cursor);
        self.version = self.version.wrapping_add(1);
        proof {
            text::lemma_encode_len_zero(self.pending_insert@);
            if old(self).pending_view().len() > 0 {
                assert(final(self).undo_views().drop_last().drop_last() =~= old(self).undo_views());
            }
        }
    }

    /// Undo one step. A pending batch is discarded — the live buffer
    /// rolls back to the batch's start snapshot and the cursor to where
    /// the batch began — so one undo reaches the prior state. Otherwise
    /// the last committed edit is undone and the cursor restored to
    /// where it stood before that edit.
    pub fn undo(&mut self)
        requires
            old(self).wf(),
        ensures
            final(self).wf(),
            final(self).pending_view().len() == 0,
            old(self).pending_view().len() > 0 ==> {
                &&& final(self).text_view() == old(self).pending_buffer_view()
                &&& final(self).cursor_spec() == old(self).pending_cursor_spec()->Some_0
                &&& final(self).undo_views() == old(self).undo_views()
                &&& final(self).redo_views() == old(self).redo_views()
                &&& final(self).version_spec() == bumped(old(self).version_spec())
            },
            old(self).pending_view().len() == 0 && old(self).undo_views().len() > 0 ==> {
                let top = old(self).undo_views().last();
                &&& final(self).text_view() == top.0
                &&& final(self).cursor_spec() == top.1.cursor_before
                &&& final(self).undo_views() == old(self).undo_views().drop_last()
                &&& final(self).redo_views() == old(self).redo_views().push(
                    (old(self).text_view(), top.1),
                )
                &&& final(self).version_spec() == bumped(old(self).version_spec())
            },
            old(self).pending_view().len() == 0 && old(self).undo_views().len() == 0 ==> {
                &&& final(self).text_view() == old(self).text_view()
                &&& final(self).cursor_spec() == old(self).cursor_spec()
                &&& final(self).undo_views() == old(self).undo_views()
                &&& final(self).redo_views() == old(self).redo_views()
                &&& final(self).version_spec() == old(self).version_spec()
            },
    {
        proof {
            text::lemma_encode_len_zero(self.pending_insert@);
        }
        if !self.pending_insert.as_str().is_empty() {
            // discard the uncommitted batch: roll back to its start
            let before_buffer = match self.pending_start_buffer.take() {
                Some(b) => *b,
                None => {
                    proof {
                        assert(false);
                    }
                    Buffer::new()
                },
            };
            self.history.update_current(before_buffer);
            match self.pending_start_cursor {
                Some(start_cursor) => {
                    self.place_cursor(start_cursor);
                },
                None => {
                    proof {
                        assert(false);
                    }
                },
            }
            self.pending_insert = String::new();
            self.pending_start_cursor = None;
            self.version = self.version.wrapping_add(1);
            proof {
                text::lemma_encode_len_zero(self.pending_insert@);
            }
        } else {
            match self.history.undo() {
                Some(transaction) => {
                    self.place_cursor(transaction.cursor_before);
                    self.version = self.version.wrapping_add(1);
                },
                None => {},
            }
        }
    }

    /// Redo one undone step, restoring the document and placing the
    /// cursor where it stood after that edit. Any pending batch is
    /// forgotten first; its text stays in the document but is no longer
    /// a unit of its own.
    pub fn redo(&mut self)
        requires
            old(self).wf(),
        ensures
            final(self).wf(),
            final(self).pending_view().len() == 0,
            old(self).redo_views().len() > 0 ==> {
                let top = old(self).redo_views().last();
                &&& final(self).text_view() == top.0
                &&& final(self).cursor_spec() == top.1.cursor_after
                &&& final(self).redo_views() == old(self).redo_views().drop_last()
                &&& final(self).undo_views() == old(self).undo_views().push(
                    (old(self).text_view(), top.1),
                )
                &&& final(self).version_spec() == bumped(old(self).version_spec())
            },
            old(self).redo_views().len() == 0 ==> {
                &&& final(self).text_view() == old(self).text_view()
                &&& final(self).cursor_spec() == old(self).cursor_spec()
                &&& final(self).undo_views() == old(self).undo_views()
                &&& final(self).redo_views() == old(self).redo_views()
                &&& final(self).version_spec() == old(self).version_spec()
            },
    {
        self.pending_insert = String::new();
        self.pending_start_cursor = None;
        self.pending_start_buffer = None;
        proof {
            text::lemma_encode_len_zero(self.pending_insert@);
        }
        match self.history.redo() {
            Some(transaction) => {
                self.place_cursor(transaction.cursor_after);
                self.version = self.version.wrapping_add(1);
            },
            None => {},
        }
    }
}

impl Default for Editor {
    /// The default editor is empty and fresh.
    fn default() -> (r: Self)
        ensures
            r.wf(),
            r.text_view() == Seq::<u8>::empty(),
            r.cursor_spec() == (Point { row: 0, column: 0 }),
            r.pending_view().len() == 0,
            r.undo_views().len() == 0,
            r.redo_views().len() == 0,
    {
        Editor::new()
    }
}

} // verus!
