//! The mathematical model of a document: a sequence of UTF-8 bytes,
//! its newline structure, and the line/column geometry derived from it.
//!
//! Lines are separated by the byte `b'\n'` (10). Line `k` starts right
//! after the `k`-th newline (line 0 starts at offset 0) and ends at the
//! `k`-th newline, or at the end of the document for the last line.
//! Columns count characters, not bytes: in valid UTF-8 each character
//! contributes exactly one byte that is not a continuation byte.
use vstd::prelude::*;
use vstd::utf8::is_continuation_byte;

verus! {

/// The newline byte, `b'\n'`.
pub open spec fn nl() -> u8 {
    10
}

/// Positions of all newline bytes in `s`, in increasing order.
pub open spec fn newlines(s: Seq<u8>) -> Seq<int>
    decreases s.len(),
{
    if s.len() == 0 {
        Seq::empty()
    } else if s.last() == nl() {
        newlines(s.drop_last()).push(s.len() - 1)
    } else {
        newlines(s.drop_last())
    }
}

/// How many newline bytes `s` holds.
pub open spec fn newline_count(s: Seq<u8>) -> int {
    newlines(s).len() as int
}

/// Byte offset where line `line` begins: 0 for line 0, one past the
/// previous newline otherwise; the document length for lines past the end.
pub open spec fn start_of_line(s: Seq<u8>, line: int) -> int {
    if line <= 0 {
        0
    } else if line <= newline_count(s) {
        newlines(s)[line - 1] + 1
    } else {
        s.len() as int
    }
}

/// Byte offset where line `line` ends, not counting its newline:
/// the position of the `line`-th newline, or the document length.
pub open spec fn end_of_line(s: Seq<u8>, line: int) -> int {
    if 0 <= line < newline_count(s) {
        newlines(s)[line]
    } else {
        s.len() as int
    }
}

/// The bytes of line `line`, without its terminating newline.
pub open spec fn line_bytes(s: Seq<u8>, line: int) -> Seq<u8> {
    s.subrange(start_of_line(s, line), end_of_line(s, line))
}

/// Whether the document has a line `line`: every line before a newline
/// exists, and the trailing line exists only when it is not empty.
pub open spec fn line_exists(s: Seq<u8>, line: int) -> bool {
    0 <= line && (line < newline_count(s) || (line == newline_count(s) && start_of_line(s, line)
        < s.len()))
}

/// The line that byte offset `o` falls on: the number of newlines
/// strictly before `o`.
pub open spec fn line_at(s: Seq<u8>, o: int) -> int {
    newline_count(s.take(o))
}

/// Number of characters encoded by `s`: in valid UTF-8, one per byte
/// that is not a continuation byte.
pub open spec fn chars_in(s: Seq<u8>) -> int
    decreases s.len(),
{
    if s.len() == 0 {
        0
    } else if is_continuation_byte(s.last()) {
        chars_in(s.drop_last())
    } else {
        chars_in(s.drop_last()) + 1
    }
}

/// The column of byte offset `o`: characters between the start of its
/// line and `o`.
pub open spec fn column_at(s: Seq<u8>, o: int) -> int {
    chars_in(s.subrange(start_of_line(s, line_at(s, o)), o))
}

/// Byte length of the first `k` characters of `s` (all of `s` if it has
/// fewer). A continuation byte is consumed with the character it belongs to.
pub open spec fn first_chars_len(s: Seq<u8>, k: int) -> int
    decreases s.len(),
{
    if s.len() == 0 {
        0
    } else if is_continuation_byte(s.first()) {
        1 + first_chars_len(s.drop_first(), k)
    } else if k <= 0 {
        0
    } else {
        1 + first_chars_len(s.drop_first(), k - 1)
    }
}

/// The byte offset of a (row, column) position: the start of the row
/// plus the bytes of the first `col` characters of that line. Rows past
/// the end give the document length, columns past the line's end give
/// the end of the line.
pub open spec fn point_offset(s: Seq<u8>, row: int, col: int) -> int {
    start_of_line(s, row) + first_chars_len(line_bytes(s, row), col)
}

/// Appending one byte extends the newline positions by at most that byte.
pub proof fn lemma_newlines_push(s: Seq<u8>, b: u8)
    ensures
        newlines(s.push(b)) == if b == nl() {
            newlines(s).push(s.len() as int)
        } else {
            newlines(s)
        },
{
    assert(s.push(b).drop_last() =~= s);
    assert(s.push(b).last() == b);
}

/// Every recorded newline position is in range and holds a newline byte;
/// the positions are strictly increasing.
pub proof fn lemma_newlines_sound(s: Seq<u8>)
    ensures
        forall|k: int|
            0 <= k < newlines(s).len() ==> 0 <= #[trigger] newlines(s)[k] < s.len() && s[newlines(
                s,
            )[k]] == nl(),
        forall|k: int, j: int| 0 <= k < j < newlines(s).len() ==> newlines(s)[k] < newlines(s)[j],
    decreases s.len(),
{
    if s.len() > 0 {
        lemma_newlines_sound(s.drop_last());
        assert(forall|k: int|
            0 <= k < newlines(s.drop_last()).len() ==> 0 <= #[trigger] newlines(s.drop_last())[k]
                < s.len() - 1 && s.drop_last()[newlines(s.drop_last())[k]] == nl());
        assert(forall|i: int| 0 <= i < s.len() - 1 ==> s.drop_last()[i] == s[i]);
    }
}

/// Newline positions of a concatenation: those of `a`, then those of `b`
/// shifted by `a`'s length.
pub proof fn lemma_newlines_concat(a: Seq<u8>, b: Seq<u8>)
    ensures
        newlines(a + b) == newlines(a) + newlines(b).map_values(|p: int| p + a.len()),
    decreases b.len(),
{
    if b.len() == 0 {
        assert(a + b =~= a);
        assert(newlines(b).map_values(|p: int| p + a.len()) =~= Seq::<int>::empty());
        assert(newlines(a + b) =~= newlines(a) + newlines(b).map_values(|p: int| p + a.len()));
    } else {
        lemma_newlines_concat(a, b.drop_last());
        assert((a + b).drop_last() =~= a + b.drop_last());
        assert((a + b).last() == b.last());
        if b.last() == nl() {
            assert(newlines(b) == newlines(b.drop_last()).push(b.len() - 1));
            assert(newlines(b).map_values(|p: int| p + a.len()) =~= newlines(
                b.drop_last(),
            ).map_values(|p: int| p + a.len()).push(a.len() + b.len() - 1));
            assert(newlines(a + b) =~= newlines(a) + newlines(b).map_values(
                |p: int| p + a.len(),
            ));
        } else {
            assert(newlines(b) == newlines(b.drop_last()));
            assert(newlines(a + b) =~= newlines(a) + newlines(b).map_values(
                |p: int| p + a.len(),
            ));
        }
    }
}

/// Newlines of a prefix are a prefix of the newlines; newlines beyond it
/// lie at or past the cut.
pub proof fn lemma_newlines_prefix(s: Seq<u8>, o: int)
    requires
        0 <= o <= s.len(),
    ensures
        newline_count(s.take(o)) <= newline_count(s),
        forall|k: int|
            0 <= k < newline_count(s.take(o)) ==> #[trigger] newlines(s)[k] == newlines(
                s.take(o),
            )[k],
        forall|k: int|
            newline_count(s.take(o)) <= k < newline_count(s) ==> #[trigger] newlines(s)[k] >= o,
{
    lemma_newlines_concat(s.take(o), s.skip(o));
    assert(s.take(o) + s.skip(o) =~= s);
    let shifted = newlines(s.skip(o)).map_values(|p: int| p + o);
    assert(newlines(s) == newlines(s.take(o)) + shifted);
    lemma_newlines_sound(s.skip(o));
    assert forall|k: int|
        newline_count(s.take(o)) <= k < newline_count(s) implies #[trigger] newlines(s)[k]
        >= o by {
        assert(newlines(s)[k] == shifted[k - newline_count(s.take(o))]);
        assert(shifted[k - newline_count(s.take(o))] == newlines(s.skip(o))[k - newline_count(
            s.take(o),
        )] + o);
    };
}

/// How the line and column of an offset change as the offset steps over
/// one byte: a newline starts the next line, a continuation byte changes
/// nothing, any other byte is one more character on the line.
pub proof fn lemma_line_col_step(s: Seq<u8>, i: int)
    requires
        0 <= i < s.len(),
    ensures
        line_at(s, i) <= line_at(s, i + 1) <= newline_count(s),
        s[i] == nl() ==> line_at(s, i + 1) == line_at(s, i) + 1 && start_of_line(
            s,
            line_at(s, i + 1),
        ) == i + 1 && column_at(s, i + 1) == 0,
        s[i] != nl() ==> line_at(s, i + 1) == line_at(s, i) && start_of_line(s, line_at(s, i + 1))
            == start_of_line(s, line_at(s, i)),
        s[i] != nl() && is_continuation_byte(s[i]) ==> column_at(s, i + 1) == column_at(s, i),
        s[i] != nl() && !is_continuation_byte(s[i]) ==> column_at(s, i + 1) == column_at(s, i) + 1,
        start_of_line(s, line_at(s, i)) <= i,
{
    let p = s.take(i);
    let q = s.take(i + 1);
    assert(q =~= p.push(s[i]));
    lemma_newlines_push(p, s[i]);
    lemma_newlines_prefix(s, i);
    lemma_newlines_prefix(s, i + 1);
    lemma_newlines_sound(p);
    lemma_newlines_sound(q);
    let line = newline_count(p);
    assert(start_of_line(s, line) <= i) by {
        if line > 0 {
            assert(newlines(s)[line - 1] == newlines(p)[line - 1]);
            assert(newlines(p)[line - 1] < p.len());
        }
    }
    if s[i] == nl() {
        assert(newlines(q) == newlines(p).push(i));
        assert(newlines(q)[line] == i);
        assert(newlines(s)[line] == i);
        assert(start_of_line(s, line + 1) == i + 1);
        assert(s.subrange(i + 1, i + 1) =~= Seq::<u8>::empty());
    } else {
        assert(newlines(q) == newlines(p));
        let st = start_of_line(s, line);
        assert(s.subrange(st, i + 1) =~= s.subrange(st, i).push(s[i]));
        assert(s.subrange(st, i + 1).drop_last() =~= s.subrange(st, i));
    }
}

/// In valid UTF-8, the position right after a newline byte is a
/// character boundary, as is the newline itself.
pub proof fn lemma_boundary_after_newline(s: Seq<u8>, q: int)
    requires
        vstd::utf8::valid_utf8(s),
        0 <= q < s.len(),
        s[q] == nl(),
    ensures
        vstd::utf8::is_char_boundary(s, q),
        vstd::utf8::is_char_boundary(s, q + 1),
{
    vstd::utf8::is_char_boundary_iff_not_is_continuation_byte(s, q);
    if q + 1 == s.len() {
        vstd::utf8::is_char_boundary_start_end_of_seq(s);
    } else {
        vstd::utf8::valid_utf8_split(s, q);
        let t = s.skip(q);
        assert(t[0] == nl());
        assert(vstd::utf8::length_of_first_scalar(t) == 1);
        assert(vstd::utf8::is_char_boundary(vstd::utf8::pop_first_scalar(t), 0));
        assert(vstd::utf8::is_char_boundary(t, 1));
        vstd::utf8::is_char_boundary_iff_not_is_continuation_byte(t, 1);
        assert(t[1] == s[q + 1]);
        vstd::utf8::is_char_boundary_iff_not_is_continuation_byte(s, q + 1);
    }
}

/// There are never more characters than bytes.
pub proof fn lemma_chars_le_len(s: Seq<u8>)
    ensures
        0 <= chars_in(s) <= s.len(),
    decreases s.len(),
{
    if s.len() > 0 {
        lemma_chars_le_len(s.drop_last());
    }
}

/// An offset's line is one of the document's lines, and the line starts
/// at or before the offset.
pub proof fn lemma_start_le(s: Seq<u8>, o: int)
    requires
        0 <= o <= s.len(),
    ensures
        0 <= line_at(s, o) <= newline_count(s),
        0 <= start_of_line(s, line_at(s, o)) <= o,
{
    lemma_newlines_prefix(s, o);
    lemma_newlines_sound(s.take(o));
    let line = line_at(s, o);
    if line > 0 {
        assert(newlines(s)[line - 1] == newlines(s.take(o))[line - 1]);
        assert(newlines(s.take(o))[line - 1] < o);
    }
}

/// Documents that agree on a prefix agree on the starts of all lines
/// that begin inside that prefix: an edit further right cannot move them.
pub proof fn lemma_prefix_line_starts(s1: Seq<u8>, s2: Seq<u8>, p: int, l: int)
    requires
        0 <= p <= s1.len(),
        p <= s2.len(),
        s1.take(p) == s2.take(p),
        0 <= l <= newline_count(s1.take(p)),
    ensures
        start_of_line(s1, l) == start_of_line(s2, l),
{
    lemma_newlines_prefix(s1, p);
    lemma_newlines_prefix(s2, p);
    if l >= 1 {
        assert(newlines(s1)[l - 1] == newlines(s1.take(p))[l - 1]);
        assert(newlines(s2)[l - 1] == newlines(s2.take(p))[l - 1]);
    }
}

/// Taking the first characters of a byte sequence never stops in the
/// middle of a character: the cut lands at the end or on a byte that
/// starts a character.
pub proof fn lemma_first_chars_len_bounds(t: Seq<u8>, k: int)
    ensures
        0 <= first_chars_len(t, k) <= t.len(),
        first_chars_len(t, k) < t.len() ==> !is_continuation_byte(t[first_chars_len(t, k)]),
    decreases t.len(),
{
    if t.len() > 0 {
        lemma_first_chars_len_bounds(t.drop_first(), k);
        lemma_first_chars_len_bounds(t.drop_first(), k - 1);
    }
}

/// The byte offset of any point is a character boundary of the document.
pub proof fn lemma_point_offset_boundary(s: Seq<u8>, row: int, col: int)
    requires
        vstd::utf8::valid_utf8(s),
    ensures
        0 <= point_offset(s, row, col) <= s.len(),
        vstd::utf8::is_char_boundary(s, point_offset(s, row, col)),
{
    lemma_newlines_sound(s);
    let st = start_of_line(s, row);
    let en = end_of_line(s, row);
    let lb = line_bytes(s, row);
    lemma_first_chars_len_bounds(lb, col);
    let f = first_chars_len(lb, col);
    let p = st + f;
    assert(st <= en <= s.len());
    if p == s.len() {
        vstd::utf8::is_char_boundary_start_end_of_seq(s);
    } else if f < lb.len() {
        assert(lb[f] == s[p]);
        vstd::utf8::is_char_boundary_iff_not_is_continuation_byte(s, p);
    } else {
        // the point sits at the end of its line, on a newline byte
        assert(p == en < s.len());
        assert(0 <= row < newline_count(s) && en == newlines(s)[row]);
        assert(s[p] == nl());
        vstd::utf8::is_char_boundary_iff_not_is_continuation_byte(s, p);
    }
}

/// Taking more characters never takes fewer bytes.
pub proof fn lemma_first_chars_monotone(t: Seq<u8>, k1: int, k2: int)
    requires
        k1 <= k2,
    ensures
        first_chars_len(t, k1) <= first_chars_len(t, k2),
    decreases t.len(),
{
    lemma_first_chars_len_bounds(t, k1);
    lemma_first_chars_len_bounds(t, k2);
    if t.len() > 0 {
        if is_continuation_byte(t.first()) {
            lemma_first_chars_monotone(t.drop_first(), k1, k2);
        } else if k1 <= 0 {
        } else {
            lemma_first_chars_monotone(t.drop_first(), k1 - 1, k2 - 1);
        }
    }
}

/// Taking exactly the characters that begin before a cut that does not
/// split a character lands back on the cut.
pub proof fn lemma_first_chars_exact(t: Seq<u8>, m: int)
    requires
        0 <= m <= t.len(),
        m < t.len() ==> !is_continuation_byte(t[m]),
    ensures
        first_chars_len(t, chars_in(t.take(m))) == m,
    decreases t.len(),
{
    if t.len() == 0 {
    } else {
        let rest = t.drop_first();
        if m == 0 {
            assert(t.take(0) =~= Seq::<u8>::empty());
        } else {
            assert(t.take(m) =~= seq![t[0]] + rest.take(m - 1));
            lemma_chars_in_concat(seq![t[0]], rest.take(m - 1));
            assert(chars_in(seq![t[0]]) == if is_continuation_byte(t[0]) {
                0int
            } else {
                1int
            }) by {
                assert(seq![t[0]].len() == 1);
                assert(seq![t[0]].drop_last() =~= Seq::<u8>::empty());
                assert(seq![t[0]].last() == t[0]);
                assert(chars_in(Seq::<u8>::empty()) == 0);
            }
            if m < t.len() {
                assert(rest[m - 1] == t[m]);
            }
            lemma_chars_le_len(rest.take(m - 1));
            lemma_first_chars_exact(rest, m - 1);
            let k = chars_in(t.take(m));
            if is_continuation_byte(t[0]) {
                assert(k == chars_in(rest.take(m - 1)));
                assert(first_chars_len(t, k) == 1 + first_chars_len(rest, k));
            } else {
                assert(k == 1 + chars_in(rest.take(m - 1)));
                assert(k >= 1);
                assert(first_chars_len(t, k) == 1 + first_chars_len(rest, k - 1));
            }
        }
    }
}

/// Converting a boundary offset to a point and back returns the same
/// offset: the round trip is exact on character boundaries.
pub proof fn lemma_point_offset_round_trip(s: Seq<u8>, o: int)
    requires
        vstd::utf8::valid_utf8(s),
        0 <= o <= s.len(),
        vstd::utf8::is_char_boundary(s, o),
    ensures
        point_offset(s, line_at(s, o), column_at(s, o)) == o,
{
    let line = line_at(s, o);
    let st = start_of_line(s, line);
    let en = end_of_line(s, line);
    let lb = line_bytes(s, line);
    lemma_start_le(s, o);
    lemma_newlines_prefix(s, o);
    lemma_newlines_sound(s);
    assert(o <= en) by {
        if line < newline_count(s) {
            assert(newlines(s)[line] >= o);
        }
    }
    assert(st <= en <= s.len());
    let m = o - st;
    assert(s.subrange(st, o) =~= lb.take(m));
    if m < lb.len() {
        assert(lb[m] == s[o]);
        assert(o < s.len());
        vstd::utf8::is_char_boundary_iff_not_is_continuation_byte(s, o);
    }
    lemma_first_chars_exact(lb, m);
}

/// Converting any offset to a point and back gives an offset that the
/// same round trip maps to itself: the conversion is stable after one
/// application.
pub proof fn lemma_conversion_stable(s: Seq<u8>, o: int)
    requires
        vstd::utf8::valid_utf8(s),
        0 <= o <= s.len(),
    ensures
        ({
            let o1 = point_offset(s, line_at(s, o), column_at(s, o));
            point_offset(s, line_at(s, o1), column_at(s, o1)) == o1
        }),
{
    let row = line_at(s, o);
    let col = column_at(s, o);
    lemma_point_offset_boundary(s, row, col);
    let o1 = point_offset(s, row, col);
    lemma_point_offset_round_trip(s, o1);
}

/// A character sequence encodes to no bytes exactly when it is empty.
pub proof fn lemma_encode_len_zero(t: Seq<char>)
    ensures
        vstd::utf8::encode_utf8(t).len() == 0 <==> t.len() == 0,
{
    if t.len() > 0 {
        assert(vstd::utf8::encode_scalar(t[0] as u32).len() >= 1);
    }
}

/// A character boundary always lies within the byte sequence.
pub proof fn lemma_boundary_le_len(s: Seq<u8>, i: int)
    requires
        vstd::utf8::valid_utf8(s),
        vstd::utf8::is_char_boundary(s, i),
    ensures
        0 <= i <= s.len(),
{
    if i != 0 {
        if i < 0 || s.len() < i {
            assert(!vstd::utf8::is_char_boundary(s, i));
        }
    }
}

/// A subrange of valid UTF-8 cut at character boundaries is valid UTF-8,
/// and boundaries inside it stay boundaries.
pub proof fn lemma_subrange_valid(s: Seq<u8>, a: int, b: int)
    requires
        vstd::utf8::valid_utf8(s),
        0 <= a <= b <= s.len(),
        vstd::utf8::is_char_boundary(s, a),
        vstd::utf8::is_char_boundary(s, b),
    ensures
        vstd::utf8::valid_utf8(s.subrange(a, b)),
{
    vstd::utf8::valid_utf8_split(s, b);
    let head = s.take(b);
    if a == b {
        assert(s.subrange(a, b) =~= Seq::<u8>::empty());
        assert(vstd::utf8::valid_utf8(Seq::<u8>::empty()));
    } else if a == 0 {
        assert(s.subrange(a, b) =~= head);
    } else {
        assert(a < s.len());
        vstd::utf8::is_char_boundary_iff_not_is_continuation_byte(s, a);
        assert(head[a] == s[a]);
        vstd::utf8::is_char_boundary_iff_not_is_continuation_byte(head, a);
        vstd::utf8::valid_utf8_split(head, a);
        assert(head.skip(a) =~= s.subrange(a, b));
    }
}

/// A boundary of the document lying in a boundary-aligned subrange is a
/// boundary of that subrange.
pub proof fn lemma_boundary_in_subrange(s: Seq<u8>, a: int, b: int, p: int)
    requires
        vstd::utf8::valid_utf8(s),
        0 <= a <= p <= b <= s.len(),
        vstd::utf8::is_char_boundary(s, a),
        vstd::utf8::is_char_boundary(s, b),
        vstd::utf8::is_char_boundary(s, p),
    ensures
        vstd::utf8::is_char_boundary(s.subrange(a, b), p - a),
{
    lemma_subrange_valid(s, a, b);
    let sub = s.subrange(a, b);
    if p == b {
        vstd::utf8::is_char_boundary_start_end_of_seq(sub);
    } else if p == a {
        vstd::utf8::is_char_boundary_start_end_of_seq(sub);
    } else {
        assert(p < s.len());
        vstd::utf8::is_char_boundary_iff_not_is_continuation_byte(s, p);
        assert(sub[p - a] == s[p]);
        vstd::utf8::is_char_boundary_iff_not_is_continuation_byte(sub, p - a);
    }
}

/// There are never more newlines than bytes.
pub proof fn lemma_newline_count_le_len(s: Seq<u8>)
    ensures
        newline_count(s) <= s.len(),
    decreases s.len(),
{
    if s.len() > 0 {
        lemma_newline_count_le_len(s.drop_last());
    }
}

/// UTF-8 encoding distributes over concatenation of character sequences.
pub proof fn lemma_encode_utf8_concat(a: Seq<char>, b: Seq<char>)
    ensures
        vstd::utf8::encode_utf8(a + b) == vstd::utf8::encode_utf8(a) + vstd::utf8::encode_utf8(b),
    decreases a.len(),
{
    if a.len() == 0 {
        assert(a + b =~= b);
        assert(vstd::utf8::encode_utf8(a) + vstd::utf8::encode_utf8(b) =~= vstd::utf8::encode_utf8(
            b,
        ));
    } else {
        lemma_encode_utf8_concat(a.drop_first(), b);
        assert((a + b).drop_first() =~= a.drop_first() + b);
        assert((a + b)[0] == a[0]);
        assert(vstd::utf8::encode_utf8(a + b) =~= vstd::utf8::encode_utf8(a)
            + vstd::utf8::encode_utf8(b));
    }
}

/// Character count of a concatenation is the sum of the parts.
pub proof fn lemma_chars_in_concat(a: Seq<u8>, b: Seq<u8>)
    ensures
        chars_in(a + b) == chars_in(a) + chars_in(b),
    decreases b.len(),
{
    if b.len() == 0 {
        assert(a + b =~= a);
    } else {
        lemma_chars_in_concat(a, b.drop_last());
        assert((a + b).drop_last() =~= a + b.drop_last());
        assert((a + b).last() == b.last());
    }
}

} // verus!
