//! The library's global laws, stated once and proved from the model:
//! position round trips, lossless chunking, edit length arithmetic, the
//! tree summary invariant, cache exactness, and undo/redo inversion.
use vstd::prelude::*;
use vstd::utf8::encode_utf8;
use crate::editor::{all_ws, spliced, Editor};
use crate::line_cache::LineOffsetCache;
use crate::text;
use crate::tree::{fold_summaries, node_items, node_summary, node_wf, Item, Node};

verus! {

/// Converting any valid offset to a point and back is stable under
/// re-application: the first conversion lands on a character boundary,
/// and from there the round trip is exact.
pub proof fn lemma_position_round_trip_stable(s: Seq<u8>, o: int)
    requires
        vstd::utf8::valid_utf8(s),
        0 <= o <= s.len(),
    ensures
        ({
            let o1 = text::point_offset(s, text::line_at(s, o), text::column_at(s, o));
            text::point_offset(s, text::line_at(s, o1), text::column_at(s, o1)) == o1
        }),
{
    text::lemma_conversion_stable(s, o);
}

/// Chunking is lossless: two texts with the same UTF-8 bytes are the
/// same text. A document built from a string therefore prints back as
/// that very string, since building and printing both preserve the bytes.
pub proof fn lemma_text_round_trip(t_in: Seq<char>, t_out: Seq<char>)
    requires
        encode_utf8(t_in) == encode_utf8(t_out),
    ensures
        t_out == t_in,
{
    vstd::utf8::encode_utf8_decode_utf8(t_in);
    vstd::utf8::encode_utf8_decode_utf8(t_out);
}

/// Length arithmetic of edits: an insertion grows the document by the
/// inserted bytes and its line count by the inserted newlines; a
/// deletion shrinks them by the deleted range and its newlines. Over any
/// sequence of edits, length and line count are therefore the starting
/// values plus what was inserted minus what was deleted.
pub proof fn lemma_edit_lengths(s: Seq<u8>, off: int, nt: Seq<u8>, start: int, end: int)
    requires
        0 <= off <= s.len(),
        0 <= start <= end <= s.len(),
    ensures
        spliced(s, off, nt).len() == s.len() + nt.len(),
        (s.take(start) + s.skip(end)).len() == s.len() - (end - start),
        text::newline_count(spliced(s, off, nt)) == text::newline_count(s)
            + text::newline_count(nt),
        text::newline_count(s.take(start) + s.skip(end)) == text::newline_count(s)
            - text::newline_count(s.subrange(start, end)),
{
    text::lemma_newlines_concat(s.take(off), nt);
    text::lemma_newlines_concat(s.take(off) + nt, s.skip(off));
    text::lemma_newlines_concat(s.take(off), s.skip(off));
    assert(s.take(off) + s.skip(off) =~= s);
    text::lemma_newlines_concat(s.take(start), s.skip(end));
    text::lemma_newlines_concat(s.take(start), s.subrange(start, end));
    text::lemma_newlines_concat(s.take(start) + s.subrange(start, end), s.skip(end));
    assert(s.take(start) + s.subrange(start, end) =~= s.take(end));
    assert(s.take(end) + s.skip(end) =~= s);
}

/// The aggregation tree's invariant: in a well-formed node — and every
/// constructor and mutation of the tree yields only well-formed nodes —
/// the cached summary equals the combine of the items below it.
pub proof fn lemma_tree_summary_invariant<T: Item>(n: Node<T>)
    requires
        node_wf(n),
    ensures
        node_summary(n) == fold_summaries(node_items(n)),
{
}

/// Cache correctness: a cached line-offset entry always equals a fresh
/// computation of that line's start over the same document.
pub proof fn lemma_cache_entry_exact(c: LineOffsetCache, s: Seq<u8>, l: int, o: usize)
    requires
        c.valid_for(s),
        c.covers(l),
        c.entry(l) == Some(o),
    ensures
        o == text::start_of_line(s, l),
{
}

/// Undo and redo are exact inverses for a committed edit: undoing it and
/// redoing it restores the document, both stacks, and the cursor the
/// transaction recorded for the state after the edit.
pub proof fn lemma_undo_redo_inverse(pre: Editor, mid: Editor, post: Editor)
    requires
        pre.pending_view().len() == 0,
        pre.undo_views().len() > 0,
        // `mid` relates to `pre` exactly as `undo` promises
        mid.text_view() == pre.undo_views().last().0,
        mid.cursor_spec() == pre.undo_views().last().1.cursor_before,
        mid.undo_views() == pre.undo_views().drop_last(),
        mid.redo_views() == pre.redo_views().push((pre.text_view(), pre.undo_views().last().1)),
        // `post` relates to `mid` exactly as `redo` promises
        post.text_view() == mid.redo_views().last().0,
        post.cursor_spec() == mid.redo_views().last().1.cursor_after,
        post.redo_views() == mid.redo_views().drop_last(),
        post.undo_views() == mid.undo_views().push(
            (mid.text_view(), mid.redo_views().last().1),
        ),
    ensures
        post.text_view() == pre.text_view(),
        post.undo_views() == pre.undo_views(),
        post.redo_views() == pre.redo_views(),
        post.cursor_spec() == pre.undo_views().last().1.cursor_after,
{
    assert(mid.redo_views().last() == (pre.text_view(), pre.undo_views().last().1));
    assert(post.redo_views() =~= pre.redo_views());
    assert(post.undo_views() =~= pre.undo_views()) by {
        assert(post.undo_views() == pre.undo_views().drop_last().push(
            (pre.undo_views().last().0, pre.undo_views().last().1),
        ));
    }
}

/// Redoing an undone edit and undoing it again also restores everything,
/// with the cursor back where it stood before the edit.
pub proof fn lemma_redo_undo_inverse(pre: Editor, mid: Editor, post: Editor)
    requires
        pre.redo_views().len() > 0,
        // `mid` relates to `pre` exactly as `redo` promises
        mid.text_view() == pre.redo_views().last().0,
        mid.cursor_spec() == pre.redo_views().last().1.cursor_after,
        mid.redo_views() == pre.redo_views().drop_last(),
        mid.undo_views() == pre.undo_views().push((pre.text_view(), pre.redo_views().last().1)),
        mid.pending_view().len() == 0,
        // `post` relates to `mid` exactly as `undo` promises
        post.text_view() == mid.undo_views().last().0,
        post.cursor_spec() == mid.undo_views().last().1.cursor_before,
        post.undo_views() == mid.undo_views().drop_last(),
        post.redo_views() == mid.redo_views().push((mid.text_view(), mid.undo_views().last().1)),
    ensures
        post.text_view() == pre.text_view(),
        post.undo_views() == pre.undo_views(),
        post.redo_views() == pre.redo_views(),
        post.cursor_spec() == pre.redo_views().last().1.cursor_before,
{
    assert(mid.undo_views().last() == (pre.text_view(), pre.redo_views().last().1));
    assert(post.undo_views() =~= pre.undo_views());
    assert(post.redo_views() =~= pre.redo_views()) by {
        assert(post.redo_views() == pre.redo_views().drop_last().push(
            (pre.redo_views().last().0, pre.redo_views().last().1),
        ));
    }
}

/// Typing leaves something to undo: after inserting any non-empty text,
/// an undo step is available — except when pure whitespace is typed into
/// an editor with no pending batch and no committed edit, which is
/// applied without being recorded.
pub proof fn lemma_typing_enables_undo(pre: Editor, post: Editor, nt: Seq<u8>)
    requires
        nt.len() > 0,
        !(all_ws(nt) && pre.pending_view().len() == 0 && pre.undo_views().len() == 0),
        // how `insert` relates the batch and the undo stack of the two states
        !all_ws(nt) ==> post.pending_view() == pre.pending_view() + nt,
        all_ws(nt) && pre.pending_view().len() > 0 ==> post.undo_views().len() == pre.undo_views().len() + 1,
        all_ws(nt) && pre.pending_view().len() == 0 ==> post.undo_views() == pre.undo_views(),
    ensures
        post.undo_views().len() > 0 || post.pending_view().len() > 0,
{
}

} // verus!
