//! Undo/redo history over shared buffer snapshots.
//!
//! Each committed edit stores the buffer as it stood before the edit and
//! an immutable transaction describing it. Undo swaps the live buffer
//! with the stored snapshot, pushing the live one onto the redo stack;
//! redo is symmetric; any new committed edit clears the redo stack.
use vstd::prelude::*;
use std::sync::Arc;
use crate::buffer::Buffer;
use crate::position::Point;

verus! {

/// What one committed edit did.
#[derive(Debug)]
pub enum EditKind {
    Insert { text: String },
    Delete { text: String },
    Replace { old_text: String, new_text: String },
}

impl Clone for EditKind {
    /// A clone is the very same edit.
    fn clone(&self) -> (r: Self)
        ensures
            r == *self,
    {
        match self {
            EditKind::Insert { text } => EditKind::Insert { text: text.clone() },
            EditKind::Delete { text } => EditKind::Delete { text: text.clone() },
            EditKind::Replace { old_text, new_text } => EditKind::Replace {
                old_text: old_text.clone(),
                new_text: new_text.clone(),
            },
        }
    }
}

/// One committed edit: where the cursor stood before and after, and what
/// the edit was. Created once, never changed.
#[derive(Debug)]
pub struct Transaction {
    pub cursor_before: Point,
    pub cursor_after: Point,
    pub edit: EditKind,
}

impl Clone for Transaction {
    /// A clone is the very same transaction.
    fn clone(&self) -> (r: Self)
        ensures
            r == *self,
    {
        Transaction {
            cursor_before: self.cursor_before,
            cursor_after: self.cursor_after,
            edit: self.edit.clone(),
        }
    }
}

impl Transaction {
    /// A committed insertion.
    pub fn insert(text: String, cursor_before: Point, cursor_after: Point) -> (r: Self)
        ensures
            r == (Transaction { cursor_before, cursor_after, edit: EditKind::Insert { text } }),
    {
        Transaction { cursor_before, cursor_after, edit: EditKind::Insert { text } }
    }

    /// A committed deletion.
    pub fn delete(text: String, cursor_before: Point, cursor_after: Point) -> (r: Self)
        ensures
            r == (Transaction { cursor_before, cursor_after, edit: EditKind::Delete { text } }),
    {
        Transaction { cursor_before, cursor_after, edit: EditKind::Delete { text } }
    }

    /// A committed whole-document replacement.
    pub fn replace(old_text: String, new_text: String, cursor_before: Point, cursor_after: Point) -> (r:
        Self)
        ensures
            r == (Transaction {
                cursor_before,
                cursor_after,
                edit: EditKind::Replace { old_text, new_text },
            }),
    {
        Transaction { cursor_before, cursor_after, edit: EditKind::Replace { old_text, new_text } }
    }
}

/// Undo and redo stacks of (snapshot, transaction) pairs around a live
/// buffer. Snapshots share structure, so keeping many is cheap.
pub struct History {
    undo_stack: Vec<(Arc<Buffer>, Transaction)>,
    redo_stack: Vec<(Arc<Buffer>, Transaction)>,
    current: Arc<Buffer>,
}

impl History {
    /// The live document's bytes.
    pub closed spec fn current_view(self) -> Seq<u8> {
        (*self.current)@
    }

    /// The undo stack as (document bytes, transaction) pairs, oldest first.
    pub closed spec fn undo_views(self) -> Seq<(Seq<u8>, Transaction)> {
        self.undo_stack@.map_values(|p: (Arc<Buffer>, Transaction)| ((*p.0)@, p.1))
    }

    /// The redo stack as (document bytes, transaction) pairs.
    pub closed spec fn redo_views(self) -> Seq<(Seq<u8>, Transaction)> {
        self.redo_stack@.map_values(|p: (Arc<Buffer>, Transaction)| ((*p.0)@, p.1))
    }

    /// Every held buffer is internally consistent.
    pub closed spec fn wf(self) -> bool {
        &&& (*self.current).wf()
        &&& forall|i: int|
            0 <= i < self.undo_stack@.len() ==> (*(#[trigger] self.undo_stack@[i]).0).wf()
        &&& forall|i: int|
            0 <= i < self.redo_stack@.len() ==> (*(#[trigger] self.redo_stack@[i]).0).wf()
    }

    /// Start a history with one live buffer and nothing to undo or redo.
    pub fn new(buffer: Buffer) -> (r: Self)
        requires
            buffer.wf(),
        ensures
            r.wf(),
            r.current_view() == buffer@,
            r.undo_views() == Seq::<(Seq<u8>, Transaction)>::empty(),
            r.redo_views() == Seq::<(Seq<u8>, Transaction)>::empty(),
    {
        let r = History {
            undo_stack: Vec::new(),
            redo_stack: Vec::new(),
            current: Arc::new(buffer),
        };
        proof {
            assert(r.undo_views() =~= Seq::<(Seq<u8>, Transaction)>::empty());
            assert(r.redo_views() =~= Seq::<(Seq<u8>, Transaction)>::empty());
        }
        r
    }

    /// The live buffer.
    pub fn current(&self) -> (r: &Buffer)
        requires
            self.wf(),
        ensures
            r@ == self.current_view(),
            r.wf(),
    {
        &*self.current
    }

    /// Commit an edit: the pre-edit snapshot and its transaction go onto
    /// the undo stack, the post-edit buffer becomes live, and whatever
    /// could be redone is gone.
    pub fn push(&mut self, buffer_before: Buffer, new_buffer: Buffer, transaction: Transaction)
        requires
            old(self).wf(),
            buffer_before.wf(),
            new_buffer.wf(),
        ensures
            final(self).wf(),
            final(self).undo_views() == old(self).undo_views().push(
                (buffer_before@, transaction),
            ),
            final(self).current_view() == new_buffer@,
            final(self).redo_views() == Seq::<(Seq<u8>, Transaction)>::empty(),
    {
        self.undo_stack.push((Arc::new(buffer_before), transaction));
        self.current = Arc::new(new_buffer);
        self.redo_stack = Vec::new();
        proof {
            assert(self.undo_views() =~= old(self).undo_views().push((buffer_before@, transaction)));
            assert(self.redo_views() =~= Seq::<(Seq<u8>, Transaction)>::empty());
        }
    }

    /// Replace the live buffer without recording anything: used while a
    /// batch is accumulating so every keystroke is visible even though
    /// one transaction will cover the whole batch.
    pub fn update_current(&mut self, new_buffer: Buffer)
        requires
            old(self).wf(),
            new_buffer.wf(),
        ensures
            final(self).wf(),
            final(self).current_view() == new_buffer@,
            final(self).undo_views() == old(self).undo_views(),
            final(self).redo_views() == old(self).redo_views(),
    {
        self.current = Arc::new(new_buffer);
    }

    /// Undo the last committed edit: the live buffer moves to the redo
    /// stack and the stored snapshot becomes live again. Returns the
    /// transaction so the caller can restore the cursor.
    pub fn undo(&mut self) -> (r: Option<Transaction>)
        requires
            old(self).wf(),
        ensures
            final(self).wf(),
            old(self).undo_views().len() == 0 ==> (r is None
                && final(self).undo_views() == old(self).undo_views()
                && final(self).redo_views() == old(self).redo_views()
                && final(self).current_view() == old(self).current_view()),
            old(self).undo_views().len() > 0 ==> {
                let top = old(self).undo_views().last();
                &&& r == Some(top.1)
                &&& final(self).undo_views() == old(self).undo_views().drop_last()
                &&& final(self).redo_views() == old(self).redo_views().push(
                    (old(self).current_view(), top.1),
                )
                &&& final(self).current_view() == top.0
            },
    {
        match self.undo_stack.pop() {
            Some((previous_buffer, transaction)) => {
                let returned = transaction.clone();
                let live = self.current.clone();
                self.redo_stack.push((live, transaction));
                self.current = previous_buffer;
                proof {
                    assert(self.undo_views() =~= old(self).undo_views().drop_last());
                    assert(self.redo_views() =~= old(self).redo_views().push(
                        (old(self).current_view(), old(self).undo_views().last().1),
                    ));
                }
                Some(returned)
            },
            None => {
                proof {
                    assert(old(self).undo_views().len() == 0);
                }
                None
            },
        }
    }

    /// Redo the last undone edit: the live buffer moves back to the undo
    /// stack and the undone snapshot becomes live again.
    pub fn redo(&mut self) -> (r: Option<Transaction>)
        requires
            old(self).wf(),
        ensures
            final(self).wf(),
            old(self).redo_views().len() == 0 ==> (r is None
                && final(self).redo_views() == old(self).redo_views()
                && final(self).undo_views() == old(self).undo_views()
                && final(self).current_view() == old(self).current_view()),
            old(self).redo_views().len() > 0 ==> {
                let top = old(self).redo_views().last();
                &&& r == Some(top.1)
                &&& final(self).redo_views() == old(self).redo_views().drop_last()
                &&& final(self).undo_views() == old(self).undo_views().push(
                    (old(self).current_view(), top.1),
                )
                &&& final(self).current_view() == top.0
            },
    {
        match self.redo_stack.pop() {
            Some((next_buffer, transaction)) => {
                let returned = transaction.clone();
                let live = self.current.clone();
                self.undo_stack.push((live, transaction));
                self.current = next_buffer;
                proof {
                    assert(self.redo_views() =~= old(self).redo_views().drop_last());
                    assert(self.undo_views() =~= old(self).undo_views().push(
                        (old(self).current_view(), old(self).redo_views().last().1),
                    ));
                }
                Some(returned)
            },
            None => {
                proof {
                    assert(old(self).redo_views().len() == 0);
                }
                None
            },
        }
    }

    /// Whether an edit stands ready to be undone.
    pub fn can_undo(&self) -> (r: bool)
        ensures
            r == (self.undo_views().len() > 0),
    {
        self.undo_stack.len() > 0
    }

    /// Whether an undone edit stands ready to be redone.
    pub fn can_redo(&self) -> (r: bool)
        ensures
            r == (self.redo_views().len() > 0),
    {
        self.redo_stack.len() > 0
    }
}

} // verus!
