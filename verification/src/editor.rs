use vstd::prelude::*;
use vstd::string::StringSliceAdditionalSpecFns;
use vstd::utf8::*;

use crate::line_index::{
    lemma_line_starts_ok, lemma_positions_concat, lemma_positions_of, line_starts_of, positions_of,
    NEWLINE,
};
use crate::text_lines::{
    join_lines, lemma_join_consecutive, lemma_line_bounds, lemma_lines_of, lemma_offset_of_line,
    lemma_positions_prefix, lemma_positions_step, line_begin, line_finish, lines_of, offset_of_line,
    window_lines,
};
use crate::utf8::{
    lemma_boundary_after_ascii, lemma_boundary_iff, lemma_encode_concat, lemma_encode_one,
    lemma_scalar_bytes,
};

verus! {

broadcast use vstd::utf8::group_utf8_lib;

/// The abstract state of the editor: the text, the cursor as a byte offset
/// into the UTF-8 encoding of the text, the first line shown in the
/// viewport, and the number of lines of the text.
pub ghost struct EditorView {
    pub text: Seq<char>,
    pub cursor: int,
    pub scroll_line: int,
    pub total_lines: int,
}

/// The named keys the editor responds to.
#[derive(Clone, Copy, Debug, PartialEq, Eq, Structural)]
pub enum EditorKey {
    Backspace,
    Delete,
    Enter,
    Tab,
    Home,
    End,
    ArrowLeft,
    ArrowRight,
    ArrowUp,
    ArrowDown,
    PageUp,
    PageDown,
}

/// The number of lines of UTF-8 bytes: one more than the number of line feeds.
pub open spec fn line_count_of(bytes: Seq<u8>) -> int {
    positions_of(bytes, NEWLINE).len() + 1int
}

/// The character boundary just before `from`, or 0 when `from` is 0.
pub open spec fn prev_boundary_of(bytes: Seq<u8>, from: int) -> int
    decreases from,
{
    if from <= 0 {
        0
    } else if is_char_boundary(bytes, from - 1) {
        from - 1
    } else {
        prev_boundary_of(bytes, from - 1)
    }
}

/// The character boundary just after `from`, or `from` itself at the end.
pub open spec fn next_boundary_of(bytes: Seq<u8>, from: int) -> int
    decreases bytes.len() - from,
{
    if from >= bytes.len() {
        from
    } else if is_char_boundary(bytes, from + 1) {
        from + 1
    } else {
        next_boundary_of(bytes, from + 1)
    }
}

/// The start of the line that position `at` lies on: just past the last line
/// feed before `at`, or 0.
pub open spec fn line_start_of(bytes: Seq<u8>, at: int) -> int
    decreases at,
{
    if at <= 0 {
        0
    } else if bytes[at - 1] == NEWLINE {
        at
    } else {
        line_start_of(bytes, at - 1)
    }
}

/// The end of the line that position `at` lies on: the first line feed at or
/// after `at`, or the end of the bytes.
pub open spec fn line_end_of(bytes: Seq<u8>, at: int) -> int
    decreases bytes.len() - at,
{
    if at >= bytes.len() {
        bytes.len() as int
    } else if bytes[at] == NEWLINE {
        at
    } else {
        line_end_of(bytes, at + 1)
    }
}

/// `v` clamped into `lo ..= hi`.
pub open spec fn clamp(v: int, lo: int, hi: int) -> int {
    if v < lo {
        lo
    } else if v > hi {
        hi
    } else {
        v
    }
}

impl EditorView {
    /// The UTF-8 encoding of the text.
    pub open spec fn bytes(self) -> Seq<u8> {
        encode_utf8(self.text)
    }

    /// The cursor sits on a character boundary, the line count is that of the
    /// text, and the text's byte length leaves room below `usize::MAX`.
    pub open spec fn wf(self) -> bool {
        &&& is_char_boundary(self.bytes(), self.cursor)
        &&& 0 <= self.scroll_line <= usize::MAX
        &&& self.total_lines == line_count_of(self.bytes())
        &&& self.bytes().len() < usize::MAX
    }

    /// The same scroll position over new bytes, with the cursor at `cursor`.
    pub open spec fn with_bytes(self, bytes: Seq<u8>, cursor: int) -> EditorView {
        EditorView {
            text: decode_utf8(bytes),
            cursor,
            scroll_line: self.scroll_line,
            total_lines: line_count_of(bytes),
        }
    }

    /// The state with the cursor moved to `cursor`.
    pub open spec fn with_cursor(self, cursor: int) -> EditorView {
        EditorView { cursor, ..self }
    }

    /// The state after typing `value` at the cursor.
    pub open spec fn after_insert(self, value: Seq<char>) -> EditorView {
        let b = self.bytes();
        let c = self.cursor;
        if value.len() == 0 {
            self
        } else {
            self.with_bytes(
                b.subrange(0, c) + encode_utf8(value) + b.subrange(c, b.len() as int),
                c + encode_utf8(value).len(),
            )
        }
    }

    /// The state after removing the character before the cursor.
    pub open spec fn after_backspace(self) -> EditorView {
        let b = self.bytes();
        let c = self.cursor;
        if c == 0 {
            self
        } else {
            let p = prev_boundary_of(b, c);
            self.with_bytes(b.subrange(0, p) + b.subrange(c, b.len() as int), p)
        }
    }

    /// The state after removing the character at the cursor.
    pub open spec fn after_delete_forward(self) -> EditorView {
        let b = self.bytes();
        let c = self.cursor;
        if c >= b.len() {
            self
        } else {
            let q = next_boundary_of(b, c);
            self.with_bytes(b.subrange(0, c) + b.subrange(q, b.len() as int), c)
        }
    }

    /// The state after moving the cursor one character left.
    pub open spec fn after_move_left(self) -> EditorView {
        self.with_cursor(prev_boundary_of(self.bytes(), self.cursor))
    }

    /// The state after moving the cursor one character right.
    pub open spec fn after_move_right(self) -> EditorView {
        if self.cursor < self.bytes().len() {
            self.with_cursor(next_boundary_of(self.bytes(), self.cursor))
        } else {
            self
        }
    }

    /// The state after moving the cursor to the start of its line.
    pub open spec fn after_line_start(self) -> EditorView {
        self.with_cursor(line_start_of(self.bytes(), self.cursor))
    }

    /// The state after moving the cursor to the end of its line.
    pub open spec fn after_line_end(self) -> EditorView {
        self.with_cursor(line_end_of(self.bytes(), self.cursor))
    }

    /// The text shown in a viewport of `viewport_lines` lines (at least one):
    /// the lines from `scroll_line` on, joined with line feeds, as UTF-8.
    pub open spec fn visible(self, viewport_lines: int) -> Seq<u8> {
        join_lines(
            window_lines(
                lines_of(self.bytes()),
                self.scroll_line,
                if viewport_lines > 1 {
                    viewport_lines
                } else {
                    1
                },
            ),
        )
    }

    /// The state after a click on the cell at row `view_line` of the viewport
    /// and column `col`: the cursor goes to character `col` of that line (or
    /// to the line's end when it is shorter), and to the last line when the
    /// row lies below the text.
    pub open spec fn after_click(self, view_line: int, col: int) -> EditorView {
        let lines = lines_of(self.bytes());
        let line_idx = if self.scroll_line + view_line < lines.len() - 1 {
            self.scroll_line + view_line
        } else {
            lines.len() - 1
        };
        let chars = decode_utf8(lines[line_idx]);
        let shown = if col < chars.len() {
            col
        } else {
            chars.len() as int
        };
        self.with_cursor(offset_of_line(lines, line_idx) + encode_utf8(chars.take(shown)).len())
    }

    /// The state after pressing `key`: Backspace and Delete remove a
    /// character, Enter and Tab type a line feed and a tab, Home and End go to
    /// the ends of the line, the left and right arrows move by a character,
    /// the up and down arrows scroll by one line and Page Up and Page Down by
    /// twenty.
    pub open spec fn after_key(self, key: EditorKey) -> EditorView {
        match key {
            EditorKey::Backspace => self.after_backspace(),
            EditorKey::Delete => self.after_delete_forward(),
            EditorKey::Enter => self.after_insert(seq!['\n']),
            EditorKey::Tab => self.after_insert(seq!['\t']),
            EditorKey::Home => self.after_line_start(),
            EditorKey::End => self.after_line_end(),
            EditorKey::ArrowLeft => self.after_move_left(),
            EditorKey::ArrowRight => self.after_move_right(),
            EditorKey::ArrowUp => self.after_scroll(-1),
            EditorKey::ArrowDown => self.after_scroll(1),
            EditorKey::PageUp => self.after_scroll(-20),
            EditorKey::PageDown => self.after_scroll(20),
        }
    }

    /// The text handed to the renderer for a viewport of `viewport_lines`
    /// lines: the visible text, or a single space when that is empty.
    pub open spec fn drawable(self, viewport_lines: int) -> Seq<u8> {
        if self.visible(viewport_lines).len() == 0 {
            seq![0x20u8]
        } else {
            self.visible(viewport_lines)
        }
    }

    /// The state after scrolling by `delta` lines, kept between the first
    /// line and the last.
    pub open spec fn after_scroll(self, delta: int) -> EditorView {
        let max_scroll = if self.total_lines >= 1 {
            self.total_lines - 1
        } else {
            0
        };
        EditorView { scroll_line: clamp(self.scroll_line + delta, 0, max_scroll), ..self }
    }
}

/// Calls `String::insert_str`.  Trusted to put the bytes of `value` into the
/// string at byte position `idx`, which must be a character boundary, with
/// the result no longer than `isize::MAX` bytes (std panics otherwise).
#[verifier::external_body]
fn string_insert_str(s: &mut String, idx: usize, value: &str)
    requires
        is_char_boundary(encode_utf8(old(s)@), idx as int),
        encode_utf8(old(s)@).len() + value.spec_bytes().len() <= isize::MAX,
    ensures
        encode_utf8(final(s)@) == encode_utf8(old(s)@).subrange(0, idx as int) + value.spec_bytes()
            + encode_utf8(old(s)@).subrange(idx as int, encode_utf8(old(s)@).len() as int),
{
    s.insert_str(idx, value)
}

/// Calls `String::drain` on the byte range `start .. end` and drops the
/// returned iterator.  Trusted to remove exactly those bytes; both ends must
/// be character boundaries (std panics otherwise).
#[verifier::external_body]
fn string_drain(s: &mut String, start: usize, end: usize)
    requires
        start <= end,
        is_char_boundary(encode_utf8(old(s)@), start as int),
        is_char_boundary(encode_utf8(old(s)@), end as int),
    ensures
        encode_utf8(final(s)@) == encode_utf8(old(s)@).subrange(0, start as int) + encode_utf8(
            old(s)@,
        ).subrange(end as int, encode_utf8(old(s)@).len() as int),
{
    s.drain(start..end);
}

/// The number of lines of `text`: one more than its line feeds.
pub fn count_lines(text: &str) -> (r: usize)
    requires
        text.spec_bytes().len() < usize::MAX,
    ensures
        r == line_count_of(text.spec_bytes()),
{
    let bytes = text.as_bytes();
    let ghost b = bytes@;
    let mut count: usize = 0;
    let mut i: usize = 0;
    while i < bytes.len()
        invariant
            b == bytes@,
            b.len() < usize::MAX,
            0 <= i <= b.len(),
            count == positions_of(b.subrange(0, i as int), NEWLINE).len(),
            count <= i,
        decreases b.len() - i,
    {
        assert(b.subrange(0, i + 1).drop_last() =~= b.subrange(0, i as int));
        if bytes[i] == NEWLINE {
            count = count + 1;
        }
        i = i + 1;
    }
    assert(b.subrange(0, b.len() as int) =~= b);
    count + 1
}

/// The start of line `line` of `bytes`, if the bytes have such a line.
fn find_line_begin(bytes: &[u8], line: usize) -> (r: Option<usize>)
    ensures
        r is Some <==> line < lines_of(bytes@).len(),
        r matches Some(begin) ==> begin == line_begin(bytes@, line as int),
{
    let ghost b = bytes@;
    proof {
        lemma_lines_of(b);
        assert(b.subrange(0, 0) =~= Seq::<u8>::empty());
    }
    let mut p: usize = 0;
    let mut seen: usize = 0;
    while seen < line && p < bytes.len()
        invariant
            b == bytes@,
            0 <= p <= b.len(),
            0 <= seen <= line,
            seen == positions_of(b.subrange(0, p as int), NEWLINE).len(),
            seen < line || p == line_begin(b, seen as int),
        decreases b.len() - p,
    {
        proof {
            lemma_positions_step(b, p as int);
            lemma_positions_prefix(b, p + 1);
            if bytes@[p as int] == NEWLINE {
                let q = positions_of(b.subrange(0, p + 1), NEWLINE);
                let all = positions_of(b, NEWLINE);
                assert(q[seen as int] == p);
                assert(q[seen as int] == all[seen as int]);
            }
        }
        if bytes[p] == NEWLINE {
            seen = seen + 1;
        }
        p = p + 1;
    }
    proof {
        lemma_positions_prefix(b, p as int);
        assert(b.subrange(0, b.len() as int) =~= b);
    }
    if seen < line {
        None
    } else {
        Some(p)
    }
}

/// The end of the last of `count` lines that start at line `first` (or of the
/// last line of all, if there are fewer), given where line `first` begins.
fn find_window_finish(bytes: &[u8], first: usize, begin: usize, count: usize) -> (r: usize)
    requires
        first < lines_of(bytes@).len(),
        begin == line_begin(bytes@, first as int),
        count >= 1,
    ensures
        r == line_finish(
            bytes@,
            (if first + count < lines_of(bytes@).len() {
                first + count
            } else {
                lines_of(bytes@).len() as int
            }) - 1,
        ),
{
    let ghost b = bytes@;
    proof {
        lemma_lines_of(b);
        lemma_line_bounds(b, first as int);
        lemma_newlines_before_line(b, first as int);
    }
    let mut p: usize = begin;
    let mut shown: usize = 1;
    while p < bytes.len() && !(bytes[p] == NEWLINE && shown == count)
        invariant
            b == bytes@,
            begin <= p <= b.len(),
            1 <= shown <= count,
            first < lines_of(b).len(),
            lines_of(b).len() == positions_of(b, NEWLINE).len() + 1,
            positions_of(b.subrange(0, p as int), NEWLINE).len() == first + shown - 1,
        decreases b.len() - p,
    {
        proof {
            lemma_positions_step(b, p as int);
        }
        if bytes[p] == NEWLINE {
            shown = shown + 1;
        }
        p = p + 1;
    }
    proof {
        let t = first + shown - 1;
        let all = positions_of(b, NEWLINE);
        lemma_positions_prefix(b, p as int);
        if p < b.len() {
            lemma_positions_step(b, p as int);
            lemma_positions_prefix(b, p + 1);
            let q = positions_of(b.subrange(0, p + 1), NEWLINE);
            assert(q[t] == p);
            assert(q[t] == all[t]);
        } else {
            assert(b.subrange(0, b.len() as int) =~= b);
        }
    }
    p
}

/// The line feeds before the start of line `i` are exactly the first `i`.
proof fn lemma_newlines_before_line(b: Seq<u8>, i: int)
    requires
        0 <= i < lines_of(b).len(),
    ensures
        positions_of(b.subrange(0, line_begin(b, i)), NEWLINE).len() == i,
{
    lemma_lines_of(b);
    lemma_line_bounds(b, i);
    lemma_positions_of(b, NEWLINE);
    let begin = line_begin(b, i);
    let prefix = b.subrange(0, begin);
    lemma_positions_prefix(b, begin);
    lemma_positions_of(prefix, NEWLINE);
    let before = positions_of(prefix, NEWLINE);
    let all = positions_of(b, NEWLINE);
    if i == 0 {
        assert(prefix =~= Seq::<u8>::empty());
    } else {
        if before.len() < i {
            assert(all[before.len() as int] >= begin);
            if before.len() < i - 1 {
                assert(all[before.len() as int] < all[i - 1]);
            }
        }
        if before.len() > i {
            assert(before[i] == all[i]);
            assert(all[i - 1] < all[i]);
            assert(before[i] < begin);
        }
    }
}

/// A stretch of well-formed UTF-8 between two character boundaries: the
/// bytes before its end are well-formed and its start is a boundary of them.
proof fn lemma_boundary_in_prefix(b: Seq<u8>, a: int, e: int)
    requires
        valid_utf8(b),
        0 <= a <= e <= b.len(),
        is_char_boundary(b, a),
        is_char_boundary(b, e),
    ensures
        valid_utf8(b.subrange(0, e)),
        is_char_boundary(b.subrange(0, e), a),
        valid_utf8(b.subrange(a, e)),
        encode_utf8(decode_utf8(b.subrange(a, e))) == b.subrange(a, e),
{
    valid_utf8_split(b, e);
    let upto = b.subrange(0, e);
    lemma_boundary_iff(upto, a);
    lemma_boundary_iff(b, a);
    if a < e {
        assert(upto[a] == b[a]);
    }
    valid_utf8_split(upto, a);
    assert(upto.subrange(a, e) =~= b.subrange(a, e));
    decode_utf8_encode_utf8(b.subrange(a, e));
}

/// Lines start and end on character boundaries of well-formed UTF-8, and
/// line `i` is laid out at its start offset.
proof fn lemma_line_span(b: Seq<u8>, i: int)
    requires
        valid_utf8(b),
        0 <= i < lines_of(b).len(),
    ensures
        0 <= line_begin(b, i) <= line_finish(b, i) <= b.len(),
        is_char_boundary(b, line_begin(b, i)),
        is_char_boundary(b, line_finish(b, i)),
        lines_of(b)[i] == b.subrange(line_begin(b, i), line_finish(b, i)),
        offset_of_line(lines_of(b), i) == line_begin(b, i),
{
    lemma_lines_of(b);
    lemma_line_bounds(b, i);
    lemma_offset_of_line(b, i);
    lemma_boundary_iff(b, line_finish(b, i));
    if i > 0 {
        lemma_line_bounds(b, i - 1);
        lemma_boundary_after_ascii(b, line_begin(b, i) - 1);
    } else {
        lemma_boundary_iff(b, 0);
    }
}

/// From a character boundary inside a run of `w - 1` continuation positions
/// followed by a boundary, the next boundary is `w` bytes on.
proof fn lemma_next_boundary_run(bytes: Seq<u8>, at: int, w: int)
    requires
        1 <= w,
        0 <= at,
        at + w <= bytes.len(),
        forall|j: int| 1 <= j < w ==> !is_char_boundary(bytes, #[trigger] (at + j)),
        is_char_boundary(bytes, at + w),
    ensures
        next_boundary_of(bytes, at) == at + w,
    decreases w,
{
    if w > 1 {
        assert(!is_char_boundary(bytes, at + 1));
        assert forall|j: int| 1 <= j < w - 1 implies !is_char_boundary(bytes, #[trigger] ((at + 1) + j)) by {
            assert(!is_char_boundary(bytes, at + (j + 1)));
        }
        lemma_next_boundary_run(bytes, at + 1, w - 1);
    }
}

/// Stepping over one character of a line: with the line's bytes between
/// `begin` and `finish`, the boundary after the first `k` characters is
/// followed by the boundary after the first `k + 1`.
proof fn lemma_char_step(bytes: Seq<u8>, begin: int, finish: int, chars: Seq<char>, k: int)
    requires
        valid_utf8(bytes),
        0 <= begin <= finish <= bytes.len(),
        is_char_boundary(bytes, finish),
        bytes.subrange(begin, finish) == encode_utf8(chars),
        0 <= k < chars.len(),
    ensures
        is_char_boundary(bytes, begin + encode_utf8(chars.take(k)).len()),
        next_boundary_of(bytes, begin + encode_utf8(chars.take(k)).len()) == begin + encode_utf8(
            chars.take(k + 1),
        ).len(),
        encode_utf8(chars.take(k)).len() < encode_utf8(chars.take(k + 1)).len(),
{
    let x = chars.take(k);
    let c = chars[k];
    let y = chars.skip(k + 1);
    assert(chars =~= x + seq![c] + y);
    assert(chars.take(k + 1) =~= x + seq![c]);
    lemma_encode_concat(x + seq![c], y);
    lemma_encode_concat(x, seq![c]);
    lemma_encode_one(c);
    char_is_scalar(c);
    lemma_scalar_bytes(c as u32);
    let ex = encode_utf8(x);
    let ec = encode_scalar(c as u32);
    let ey = encode_utf8(y);
    let o = begin + ex.len();
    let w = ec.len() as int;
    assert(encode_utf8(chars) == ex + ec + ey);
    assert(bytes[o] == ec[0]) by {
        assert(bytes.subrange(begin, finish)[ex.len() as int] == bytes[o]);
    }
    lemma_boundary_iff(bytes, o);
    assert forall|j: int| 1 <= j < w implies !is_char_boundary(bytes, #[trigger] (o + j)) by {
        assert(bytes.subrange(begin, finish)[ex.len() + j] == bytes[o + j]);
        assert(bytes[o + j] == ec[j]);
        lemma_boundary_iff(bytes, o + j);
    }
    if o + w < finish {
        assert(ey.len() > 0);
        assert(ey == encode_scalar(y[0] as u32) + encode_utf8(y.drop_first()));
        char_is_scalar(y[0]);
        lemma_scalar_bytes(y[0] as u32);
        assert(bytes.subrange(begin, finish)[ex.len() + w] == bytes[o + w]);
        assert(bytes[o + w] == ey[0]);
        lemma_boundary_iff(bytes, o + w);
    }
    lemma_next_boundary_run(bytes, o, w);
}

/// Shows that a new text with the cursor at `cursor` is well-formed.
proof fn lemma_view_wf(v: EditorView, bytes: Seq<u8>, cursor: int)
    requires
        valid_utf8(bytes),
        is_char_boundary(bytes, cursor),
        bytes.len() < usize::MAX,
        0 <= v.scroll_line <= usize::MAX,
    ensures
        v.with_bytes(bytes, cursor).wf(),
        v.with_bytes(bytes, cursor).bytes() == bytes,
{
    decode_utf8_encode_utf8(bytes);
}

/// Properties of the boundary before `c`: it lies below `c` and no boundary
/// lies strictly between the two.
pub proof fn lemma_prev_boundary_props(b: Seq<u8>, c: int)
    requires
        valid_utf8(b),
        0 < c <= b.len(),
    ensures
        0 <= prev_boundary_of(b, c) < c,
        is_char_boundary(b, prev_boundary_of(b, c)),
        forall|j: int| prev_boundary_of(b, c) < j < c ==> !is_char_boundary(b, j),
    decreases c,
{
    lemma_boundary_iff(b, 0);
    if !is_char_boundary(b, c - 1) {
        lemma_prev_boundary_props(b, c - 1);
    }
}

/// Properties of the boundary after `c`: it lies above `c` and no boundary
/// lies strictly between the two.
pub proof fn lemma_next_boundary_props(b: Seq<u8>, c: int)
    requires
        valid_utf8(b),
        0 <= c < b.len(),
    ensures
        c < next_boundary_of(b, c) <= b.len(),
        is_char_boundary(b, next_boundary_of(b, c)),
        forall|j: int| c < j < next_boundary_of(b, c) ==> !is_char_boundary(b, j),
    decreases b.len() - c,
{
    lemma_boundary_iff(b, b.len() as int);
    if !is_char_boundary(b, c + 1) {
        lemma_next_boundary_props(b, c + 1);
    }
}

/// The boundary before `c` is `p` when `p` is a boundary below `c` with none
/// in between.
proof fn lemma_prev_boundary_is(b: Seq<u8>, p: int, c: int)
    requires
        0 <= p < c,
        is_char_boundary(b, p),
        forall|j: int| p < j < c ==> !is_char_boundary(b, j),
    ensures
        prev_boundary_of(b, c) == p,
    decreases c - p,
{
    if c - 1 > p {
        lemma_prev_boundary_is(b, p, c - 1);
    }
}

/// The boundary after `p` is `c` when `c` is a boundary above `p` with none
/// in between.
proof fn lemma_next_boundary_is(b: Seq<u8>, p: int, c: int)
    requires
        0 <= p < c <= b.len(),
        is_char_boundary(b, c),
        forall|j: int| p < j < c ==> !is_char_boundary(b, j),
    ensures
        next_boundary_of(b, p) == c,
{
    assert forall|j: int| 1 <= j < c - p implies !is_char_boundary(b, #[trigger] (p + j)) by {}
    lemma_next_boundary_run(b, p, c - p);
}

/// The line count kept in a well-formed state is the number of lines of the
/// text, which is also the number of entries of its line index.
pub proof fn lemma_total_lines_are_lines(v: EditorView)
    requires
        v.wf(),
    ensures
        v.total_lines == lines_of(v.bytes()).len(),
        v.total_lines == line_starts_of(v.bytes()).len(),
        forall|i: int|
            0 <= i < v.total_lines ==> #[trigger] line_starts_of(v.bytes())[i] == line_begin(
                v.bytes(),
                i,
            ),
{
    lemma_lines_of(v.bytes());
    lemma_line_starts_ok(v.bytes());
}

/// Typing a single character and then pressing backspace gives back the
/// state before the character was typed.
pub proof fn lemma_backspace_undoes_typing(v: EditorView, c: char)
    requires
        v.wf(),
    ensures
        v.after_insert(seq![c]).after_backspace() == v,
{
    let b = v.bytes();
    let k = v.cursor;
    lemma_encode_one(c);
    char_is_scalar(c);
    lemma_scalar_bytes(c as u32);
    let e = encode_scalar(c as u32);
    let w = e.len() as int;
    let nb = b.subrange(0, k) + e + b.subrange(k, b.len() as int);
    valid_utf8_split(b, k);
    valid_utf8_concat(b.subrange(0, k), e);
    valid_utf8_concat(b.subrange(0, k) + e, b.subrange(k, b.len() as int));
    decode_utf8_encode_utf8(nb);
    let v1 = v.after_insert(seq![c]);
    assert(v1.bytes() == nb);
    assert(v1.cursor == k + w);
    lemma_boundary_iff(nb, k);
    assert(nb[k] == e[0]);
    assert forall|j: int| k < j < k + w implies !is_char_boundary(nb, j) by {
        lemma_boundary_iff(nb, j);
        assert(nb[j] == e[j - k]);
    }
    lemma_prev_boundary_is(nb, k, k + w);
    assert(nb.subrange(0, k) + nb.subrange(k + w, nb.len() as int) =~= b);
    encode_utf8_decode_utf8(v.text);
}

/// Moving left and then right returns the cursor to where it was, unless it
/// started at the beginning of the text.
pub proof fn lemma_left_then_right(v: EditorView)
    requires
        v.wf(),
        v.cursor > 0,
    ensures
        v.after_move_left().after_move_right() == v,
{
    let b = v.bytes();
    lemma_prev_boundary_props(b, v.cursor);
    lemma_next_boundary_is(b, prev_boundary_of(b, v.cursor), v.cursor);
}

/// Moving right and then left returns the cursor to where it was, unless it
/// started at the end of the text.
pub proof fn lemma_right_then_left(v: EditorView)
    requires
        v.wf(),
        v.cursor < v.bytes().len(),
    ensures
        v.after_move_right().after_move_left() == v,
{
    let b = v.bytes();
    lemma_next_boundary_props(b, v.cursor);
    lemma_prev_boundary_is(b, v.cursor, next_boundary_of(b, v.cursor));
}

/// Backspace is moving left and then deleting forward, away from the start of
/// the text.
pub proof fn lemma_backspace_is_left_then_delete(v: EditorView)
    requires
        v.wf(),
        v.cursor > 0,
    ensures
        v.after_move_left().after_delete_forward() == v.after_backspace(),
{
    let b = v.bytes();
    lemma_prev_boundary_props(b, v.cursor);
    lemma_next_boundary_is(b, prev_boundary_of(b, v.cursor), v.cursor);
}

/// The lines of two texts put end to end: the last line of the first and the
/// first line of the second become one, so the count is one less than the sum.
pub proof fn lemma_line_count_concat(a: Seq<char>, b: Seq<char>)
    ensures
        line_count_of(encode_utf8(a) + encode_utf8(b)) == line_count_of(encode_utf8(a))
            + line_count_of(encode_utf8(b)) - 1,
        line_count_of(encode_utf8(a + b)) == line_count_of(encode_utf8(a)) + line_count_of(
            encode_utf8(b),
        ) - 1,
{
    lemma_encode_concat(a, b);
    lemma_positions_concat(encode_utf8(a), encode_utf8(b), NEWLINE);
}

/// Typing a text adds one line per line feed in it.
pub proof fn lemma_typing_adds_lines(v: EditorView, value: Seq<char>)
    requires
        v.wf(),
    ensures
        v.after_insert(value).total_lines == v.total_lines + positions_of(
            encode_utf8(value),
            NEWLINE,
        ).len(),
{
    let b = v.bytes();
    let k = v.cursor;
    if value.len() == 0 {
        assert(encode_utf8(value) =~= Seq::<u8>::empty());
    } else {
        let e = encode_utf8(value);
        let left = b.subrange(0, k);
        let right = b.subrange(k, b.len() as int);
        lemma_positions_concat(left + e, right, NEWLINE);
        lemma_positions_concat(left, e, NEWLINE);
        lemma_positions_concat(left, right, NEWLINE);
        assert(left + right =~= b);
    }
}

/// Scrolling always leaves the first shown line between the first line and
/// the last line of the text.
pub proof fn lemma_scroll_stays_in_text(v: EditorView, delta: int)
    requires
        v.wf(),
    ensures
        0 <= v.after_scroll(delta).scroll_line < v.total_lines,
{
}

/// Scrolled to the top with room for every line, the viewport shows the
/// whole text.
pub proof fn lemma_whole_text_visible(v: EditorView, viewport_lines: int)
    requires
        v.wf(),
        v.scroll_line == 0,
        viewport_lines >= v.total_lines,
    ensures
        v.visible(viewport_lines) == v.bytes(),
{
    let b = v.bytes();
    lemma_lines_of(b);
    let n = lines_of(b).len() as int;
    lemma_join_consecutive(b, 0, n - 1);
    assert(lines_of(b).subrange(0, n) =~= lines_of(b));
    assert(window_lines(lines_of(b), 0, if viewport_lines > 1 { viewport_lines } else { 1 })
        =~= lines_of(b));
    assert(b.subrange(0, b.len() as int) =~= b);
}

/// The start of a line is 0 or just past a line feed, with no line feed
/// between it and `at`.
proof fn lemma_line_start_props(b: Seq<u8>, at: int)
    requires
        0 <= at <= b.len(),
    ensures
        0 <= line_start_of(b, at) <= at,
        line_start_of(b, at) > 0 ==> b[line_start_of(b, at) - 1] == NEWLINE,
        forall|j: int| line_start_of(b, at) <= j < at ==> b[j] != NEWLINE,
    decreases at,
{
    if at > 0 && b[at - 1] != NEWLINE {
        lemma_line_start_props(b, at - 1);
    }
}

/// The end of a line is the end of the text or a line feed, with no line
/// feed between `at` and it.
proof fn lemma_line_end_props(b: Seq<u8>, at: int)
    requires
        0 <= at <= b.len(),
    ensures
        at <= line_end_of(b, at) <= b.len(),
        line_end_of(b, at) < b.len() ==> b[line_end_of(b, at)] == NEWLINE,
        forall|j: int| at <= j < line_end_of(b, at) ==> b[j] != NEWLINE,
    decreases b.len() - at,
{
    if at < b.len() && b[at] != NEWLINE {
        lemma_line_end_props(b, at + 1);
    }
}

/// Going to the start of the line a second time stays put; so does going to
/// its end a second time.
pub proof fn lemma_line_moves_settle(v: EditorView)
    requires
        v.wf(),
    ensures
        v.after_line_start().after_line_start() == v.after_line_start(),
        v.after_line_end().after_line_end() == v.after_line_end(),
{
    lemma_boundary_iff(v.bytes(), v.cursor);
    lemma_line_start_props(v.bytes(), v.cursor);
    lemma_line_end_props(v.bytes(), v.cursor);
}

/// Home puts the cursor at the start of the text or just after a line feed,
/// and no byte from there up to where the cursor was is a line feed; the
/// text and the viewport stay as they were.
pub proof fn lemma_home_goes_to_line_start(v: EditorView)
    requires
        v.wf(),
    ensures
        ({
            let b = v.bytes();
            let c = v.after_line_start().cursor;
            &&& 0 <= c <= v.cursor
            &&& c == 0 || b[c - 1] == NEWLINE
            &&& forall|j: int| c <= j < v.cursor ==> b[j] != NEWLINE
        }),
        v.after_line_start().text == v.text,
        v.after_line_start().scroll_line == v.scroll_line,
        v.after_line_start().total_lines == v.total_lines,
{
    lemma_boundary_iff(v.bytes(), v.cursor);
    lemma_line_start_props(v.bytes(), v.cursor);
}

/// End puts the cursor at the end of the text or on a line feed, and no byte
/// from where the cursor was up to there is a line feed; the text and the
/// viewport stay as they were.
pub proof fn lemma_end_goes_to_line_end(v: EditorView)
    requires
        v.wf(),
    ensures
        ({
            let b = v.bytes();
            let c = v.after_line_end().cursor;
            &&& v.cursor <= c <= b.len()
            &&& c == b.len() || b[c] == NEWLINE
            &&& forall|j: int| v.cursor <= j < c ==> b[j] != NEWLINE
        }),
        v.after_line_end().text == v.text,
        v.after_line_end().scroll_line == v.scroll_line,
        v.after_line_end().total_lines == v.total_lines,
{
    lemma_boundary_iff(v.bytes(), v.cursor);
    lemma_line_end_props(v.bytes(), v.cursor);
}

/// Scrolling is relative to the current scroll line: by `delta` lines when
/// that stays within the text, otherwise to the first or the last line.
/// Nothing but the scroll line changes.
pub proof fn lemma_scroll_is_relative(v: EditorView, delta: int)
    requires
        v.wf(),
    ensures
        0 <= v.scroll_line + delta <= v.total_lines - 1 ==> v.after_scroll(delta).scroll_line
            == v.scroll_line + delta,
        v.scroll_line + delta < 0 ==> v.after_scroll(delta).scroll_line == 0,
        v.scroll_line + delta > v.total_lines - 1 ==> v.after_scroll(delta).scroll_line
            == v.total_lines - 1,
        v.after_scroll(delta).text == v.text,
        v.after_scroll(delta).cursor == v.cursor,
        v.after_scroll(delta).total_lines == v.total_lines,
{
}

/// Only Backspace, Delete, Enter and Tab change the text; the arrow and page
/// keys and Home and End leave it as it is.  The up and down arrows scroll
/// by one line and Page Up and Page Down by twenty, where that stays within
/// the text.
pub proof fn lemma_key_effects(v: EditorView, key: EditorKey)
    requires
        v.wf(),
    ensures
        !(key is Backspace || key is Delete || key is Enter || key is Tab) ==> v.after_key(
            key,
        ).text == v.text,
        key is ArrowUp && 1 <= v.scroll_line <= v.total_lines ==> v.after_key(key).scroll_line == v.scroll_line - 1,
        key is ArrowDown && v.scroll_line + 1 <= v.total_lines - 1 ==> v.after_key(key).scroll_line
            == v.scroll_line + 1,
        key is PageUp && 20 <= v.scroll_line <= v.total_lines + 19 ==> v.after_key(key).scroll_line == v.scroll_line - 20,
        key is PageDown && v.scroll_line + 20 <= v.total_lines - 1 ==> v.after_key(key).scroll_line
            == v.scroll_line + 20,
        (key is ArrowUp || key is ArrowDown || key is PageUp || key is PageDown) ==> v.after_key(
            key,
        ).cursor == v.cursor,
{
}

/// A stretch without line feed bytes has no line-feed positions.
proof fn lemma_no_newlines(s: Seq<u8>)
    requires
        forall|j: int| 0 <= j < s.len() ==> s[j] != NEWLINE,
    ensures
        positions_of(s, NEWLINE).len() == 0,
{
    lemma_positions_of(s, NEWLINE);
    if positions_of(s, NEWLINE).len() > 0 {
        let p = positions_of(s, NEWLINE)[0];
        assert(s[p] == NEWLINE);
    }
}

/// The line feeds before the end of line `i` are exactly the first `i`.
proof fn lemma_newlines_before_finish(b: Seq<u8>, i: int)
    requires
        0 <= i < lines_of(b).len(),
    ensures
        positions_of(b.subrange(0, line_finish(b, i)), NEWLINE).len() == i,
{
    lemma_lines_of(b);
    lemma_line_bounds(b, i);
    let p = positions_of(b, NEWLINE);
    if i < p.len() {
        let f = line_finish(b, i);
        lemma_positions_of(b, NEWLINE);
        lemma_newlines_before_line(b, i + 1);
        lemma_positions_step(b, f);
    } else {
        assert(b.subrange(0, b.len() as int) =~= b);
    }
}

/// A click on row `view_line` of the viewport puts the cursor on line
/// `scroll_line + view_line` of the text, or on its last line when the row
/// lies below the text: the cursor lies between the start and the end of that
/// line, with exactly that many line feeds before it, and `col` characters
/// after the start of the line, or all of them when the line is shorter.
/// The text and the viewport stay as they were.
pub proof fn lemma_click_lands_in_row(v: EditorView, view_line: int, col: int)
    requires
        v.wf(),
        0 <= view_line,
        0 <= col,
    ensures
        ({
            let b = v.bytes();
            let row = if v.scroll_line + view_line < v.total_lines - 1 {
                v.scroll_line + view_line
            } else {
                v.total_lines - 1
            };
            let begin = line_begin(b, row);
            let finish = line_finish(b, row);
            let width = decode_utf8(b.subrange(begin, finish)).len();
            let c = v.after_click(view_line, col).cursor;
            &&& begin <= c <= finish
            &&& positions_of(b.subrange(0, c), NEWLINE).len() == row
            &&& decode_utf8(b.subrange(begin, c)).len() == if col < width {
                col
            } else {
                width as int
            }
        }),
        v.after_click(view_line, col).text == v.text,
        v.after_click(view_line, col).scroll_line == v.scroll_line,
        v.after_click(view_line, col).total_lines == v.total_lines,
{
    let b = v.bytes();
    lemma_lines_of(b);
    let lines = lines_of(b);
    let row = if v.scroll_line + view_line < v.total_lines - 1 {
        v.scroll_line + view_line
    } else {
        v.total_lines - 1
    };
    lemma_line_span(b, row);
    lemma_line_bounds(b, row);
    let begin = line_begin(b, row);
    let finish = line_finish(b, row);
    lemma_boundary_in_prefix(b, begin, finish);
    let chars = decode_utf8(lines[row]);
    let shown = if col < chars.len() {
        col
    } else {
        chars.len() as int
    };
    let head = chars.take(shown);
    let tail = chars.skip(shown);
    assert(chars =~= head + tail);
    lemma_encode_concat(head, tail);
    let eh = encode_utf8(head);
    let c = begin + eh.len();
    assert(v.after_click(view_line, col).cursor == c);
    assert(encode_utf8(chars) == b.subrange(begin, finish));
    assert(c <= finish);
    assert(b.subrange(begin, c) =~= eh) by {
        assert forall|j: int| 0 <= j < eh.len() implies b.subrange(begin, c)[j] == eh[j] by {
            assert(b.subrange(begin, finish)[j] == b[begin + j]);
            assert((eh + encode_utf8(tail))[j] == eh[j]);
        }
    }
    encode_utf8_decode_utf8(head);
    let mid = b.subrange(begin, c);
    lemma_no_newlines(mid);
    lemma_newlines_before_line(b, row);
    assert(b.subrange(0, c) =~= b.subrange(0, begin) + mid);
    lemma_positions_concat(b.subrange(0, begin), mid, NEWLINE);
}

/// A viewport of `viewport_lines` lines (at least one) shows the next
/// `viewport_lines` lines of the text from the scroll line on, or as many as
/// are left: the bytes from the start of line `scroll_line` to the end of the
/// last line shown, with one line feed fewer than lines shown.  Scrolled past
/// the text, it shows nothing.
pub proof fn lemma_visible_is_window(v: EditorView, viewport_lines: int)
    requires
        v.wf(),
    ensures
        v.scroll_line >= v.total_lines ==> v.visible(viewport_lines).len() == 0,
        v.scroll_line < v.total_lines ==> ({
            let b = v.bytes();
            let wanted = if viewport_lines > 1 {
                viewport_lines
            } else {
                1
            };
            let shown = if wanted < v.total_lines - v.scroll_line {
                wanted
            } else {
                v.total_lines - v.scroll_line
            };
            &&& v.visible(viewport_lines) == b.subrange(
                line_begin(b, v.scroll_line),
                line_finish(b, v.scroll_line + shown - 1),
            )
            &&& positions_of(v.visible(viewport_lines), NEWLINE).len() == shown - 1
        }),
{
    let b = v.bytes();
    lemma_lines_of(b);
    let lines = lines_of(b);
    let s = v.scroll_line;
    let wanted = if viewport_lines > 1 {
        viewport_lines
    } else {
        1
    };
    if s >= v.total_lines {
        assert(window_lines(lines, s, wanted) =~= Seq::<Seq<u8>>::empty());
    } else {
        let shown = if wanted < v.total_lines - s {
            wanted
        } else {
            v.total_lines - s
        };
        let t = s + shown - 1;
        assert(window_lines(lines, s, wanted) =~= lines.subrange(s, t + 1));
        lemma_join_consecutive(b, s, t);
        let begin = line_begin(b, s);
        let finish = line_finish(b, t);
        lemma_line_bounds(b, s);
        lemma_line_bounds(b, t);
        lemma_newlines_before_line(b, s);
        lemma_newlines_before_finish(b, t);
        assert(b.subrange(0, finish) =~= b.subrange(0, begin) + b.subrange(begin, finish));
        lemma_positions_concat(b.subrange(0, begin), b.subrange(begin, finish), NEWLINE);
    }
}

/// Why the window could not hand out a frame to draw into.
#[derive(Clone, Copy, Debug, PartialEq, Eq, Structural)]
pub enum FrameProblem {
    Outdated,
    Lost,
    OutOfMemory,
    Timeout,
}

/// What to do about a frame that could not be had.
#[derive(Clone, Copy, Debug, PartialEq, Eq, Structural)]
pub enum FrameAction {
    /// Reconfigure the surface at the current size and skip this frame.
    Resize,
    /// Stop: the surface ran out of memory.
    Fail,
    /// Skip this frame.
    Skip,
}

/// The response to a frame that could not be had: an outdated or lost
/// surface is reconfigured, running out of memory is fatal, and a timeout
/// just skips the frame.
pub fn frame_action(problem: FrameProblem) -> (r: FrameAction)
    ensures
        r == match problem {
            FrameProblem::Outdated | FrameProblem::Lost => FrameAction::Resize,
            FrameProblem::OutOfMemory => FrameAction::Fail,
            FrameProblem::Timeout => FrameAction::Skip,
        },
{
    match problem {
        FrameProblem::Outdated | FrameProblem::Lost => FrameAction::Resize,
        FrameProblem::OutOfMemory => FrameAction::Fail,
        FrameProblem::Timeout => FrameAction::Skip,
    }
}

/// A byte with ASCII upper-case letters mapped to lower case.
pub open spec fn ascii_lower(b: u8) -> u8 {
    if 0x41 <= b <= 0x5a {
        (b + 0x20) as u8
    } else {
        b
    }
}

/// Two byte strings that match when ASCII letters are compared without case.
pub open spec fn ascii_case_eq(a: Seq<u8>, b: Seq<u8>) -> bool {
    &&& a.len() == b.len()
    &&& forall|i: int| 0 <= i < a.len() ==> ascii_lower(#[trigger] a[i]) == ascii_lower(b[i])
}

/// Calls `str::eq_ignore_ascii_case`.  Trusted to compare the two strings
/// byte by byte with ASCII letters folded to lower case (std documents it as
/// `to_ascii_lowercase(a) == to_ascii_lowercase(b)`, which maps only `A`-`Z`).
#[verifier::external_body]
fn str_eq_ignore_ascii_case(a: &str, b: &str) -> (r: bool)
    ensures
        r == ascii_case_eq(a.spec_bytes(), b.spec_bytes()),
{
    a.eq_ignore_ascii_case(b)
}

/// Whether a key press saves the file: Control or Super is held and the key
/// typed the letter `s` in either case.
pub fn is_save_shortcut(control: bool, super_key: bool, typed: Option<&str>) -> (r: bool)
    ensures
        r == ((control || super_key) && match typed {
            Some(t) => ascii_case_eq(t.spec_bytes(), seq![0x73u8]),
            None => false,
        }),
{
    if !(control || super_key) {
        return false;
    }
    match typed {
        Some(t) => {
            let s = "s";
            proof {
                reveal_strlit("s");
                assert(s@ =~= seq!['s']);
                lemma_encode_one('s');
                assert((0x73u32 & 0x7Fu32) as u8 == 0x73u8) by (bit_vector);
                assert(s.spec_bytes() =~= seq![0x73u8]);
            }
            str_eq_ignore_ascii_case(t, s)
        },
        None => false,
    }
}

/// A string matches `s` without case exactly when it is `s` or `S`.
pub proof fn lemma_save_key_is_s(chars: Seq<char>)
    ensures
        ascii_case_eq(encode_utf8(chars), seq![0x73u8]) <==> (chars == seq!['s'] || chars
            == seq!['S']),
{
    if chars == seq!['s'] || chars == seq!['S'] {
        lemma_encode_one(chars[0]);
        assert((0x73u32 & 0x7Fu32) as u8 == 0x73u8) by (bit_vector);
        assert((0x53u32 & 0x7Fu32) as u8 == 0x53u8) by (bit_vector);
    }
    if ascii_case_eq(encode_utf8(chars), seq![0x73u8]) {
        assert(chars.len() > 0);
        let c = chars[0];
        lemma_encode_concat(seq![c], chars.drop_first());
        assert(chars =~= seq![c] + chars.drop_first());
        lemma_encode_one(c);
        char_is_scalar(c);
        lemma_scalar_bytes(c as u32);
        let v = c as u32;
        assert(encode_scalar(v).len() == 1);
        if chars.drop_first().len() > 0 {
            let d = chars.drop_first()[0];
            lemma_encode_concat(seq![d], chars.drop_first().drop_first());
            assert(chars.drop_first() =~= seq![d] + chars.drop_first().drop_first());
            lemma_encode_one(d);
            char_is_scalar(d);
            lemma_scalar_bytes(d as u32);
        }
        assert(chars.drop_first().len() == 0);
        assert(v < 0x80);
        assert(encode_scalar(v)[0] == (v & 0x7F) as u8);
        assert((v & 0x7F) as u8 == v as u8) by (bit_vector)
            requires
                v < 0x80,
        ;
        assert(v == 0x73 || v == 0x53);
        char_u32_cast(c, v);
        assert(chars =~= seq![c]);
        if v == 0x73 {
            assert(c == 's');
        } else {
            assert(c == 'S');
        }
    }
}

/// The editing state of the editor window.
#[derive(Debug)]
pub struct EditorState {
    text: String,
    cursor: usize,
    scroll_line: usize,
    total_lines: usize,
}

impl Clone for EditorState {
    fn clone(&self) -> (r: Self)
        ensures
            r@ == self@,
    {
        proof {
            use_type_invariant(self);
        }
        EditorState {
            text: self.text.clone(),
            cursor: self.cursor,
            scroll_line: self.scroll_line,
            total_lines: self.total_lines,
        }
    }
}

impl View for EditorState {
    type V = EditorView;

    closed spec fn view(&self) -> EditorView {
        EditorView {
            text: self.text@,
            cursor: self.cursor as int,
            scroll_line: self.scroll_line as int,
            total_lines: self.total_lines as int,
        }
    }
}

impl EditorState {
    /// The state is always well-formed (see [`EditorView::wf`]).
    #[verifier::type_invariant]
    spec fn is_well_formed(self) -> bool {
        self@.wf()
    }

    /// Moves the state out, leaving an empty text behind in its place.
    fn take(&mut self) -> (r: Self)
        ensures
            r@ == old(self)@,
            r@.wf(),
    {
        proof {
            use_type_invariant(&*self);
        }
        let text = String::new();
        proof {
            assert(encode_utf8(text@) =~= Seq::<u8>::empty());
            assert(positions_of(encode_utf8(text@), NEWLINE) =~= Seq::<int>::empty());
        }
        let mut blank = EditorState { text, cursor: 0, scroll_line: 0, total_lines: 1 };
        std::mem::swap(self, &mut blank);
        blank
    }

    /// A state over `text` with the cursor at its end, scrolled to the top.
    pub fn new(text: String) -> (r: Self)
        requires
            encode_utf8(text@).len() < usize::MAX,
        ensures
            r@.wf(),
            r@.text == text@,
            r@.cursor == encode_utf8(text@).len(),
            r@.scroll_line == 0,
    {
        let cursor = text.as_str().len();
        let total_lines = count_lines(text.as_str());
        Self { text, cursor, scroll_line: 0, total_lines }
    }

    /// The text.
    pub fn text(&self) -> (r: &str)
        ensures
            r@ == self@.text,
            self@.wf(),
    {
        proof {
            use_type_invariant(self);
        }
        self.text.as_str()
    }

    /// The cursor, as a byte offset into the text.
    pub fn cursor(&self) -> (r: usize)
        ensures
            r == self@.cursor,
            self@.wf(),
    {
        proof {
            use_type_invariant(self);
        }
        self.cursor
    }

    /// The first line shown in the viewport.
    pub fn scroll_line(&self) -> (r: usize)
        ensures
            r == self@.scroll_line,
            self@.wf(),
    {
        proof {
            use_type_invariant(self);
        }
        self.scroll_line
    }

    /// The number of lines of the text.
    pub fn total_lines(&self) -> (r: usize)
        ensures
            r == self@.total_lines,
            self@.wf(),
    {
        proof {
            use_type_invariant(self);
        }
        self.total_lines
    }

    /// Types `value` at the cursor, leaving the cursor after it.
    pub fn insert_text(&mut self, value: &str)
        requires
            old(self)@.bytes().len() + value.spec_bytes().len() <= isize::MAX,
        ensures
            final(self)@.wf(),
            final(self)@ == old(self)@.after_insert(value@),
    {
        proof {
            use_type_invariant(&*self);
        }
        if value.is_empty() {
            return;
        }
        let ghost b = self@.bytes();
        let ghost c = self.cursor as int;
        let EditorState { mut text, cursor, scroll_line, .. } = self.take();
        string_insert_str(&mut text, cursor, value);
        let ghost nb = b.subrange(0, c) + value.spec_bytes() + b.subrange(c, b.len() as int);
        proof {
            lemma_boundary_iff(b, c);
            lemma_boundary_iff(nb, c + value.spec_bytes().len());
            if c < b.len() {
                assert(nb[c + value.spec_bytes().len()] == b[c]);
            }
        }
        let cursor = cursor + value.len();
        let total_lines = count_lines(text.as_str());
        proof {
            lemma_view_wf(old(self)@, nb, cursor as int);
        }
        *self = EditorState { text, cursor, scroll_line, total_lines };
        assert(self@ == old(self)@.after_insert(value@));
    }

    /// The character boundary before byte offset `from` (0 stays 0).
    pub fn prev_boundary(&self, from: usize) -> (r: usize)
        requires
            is_char_boundary(self@.bytes(), from as int),
        ensures
            r == prev_boundary_of(self@.bytes(), from as int),
            is_char_boundary(self@.bytes(), r as int),
            from > 0 ==> r < from,
    {
        proof {
            use_type_invariant(self);
        }
        if from == 0 {
            return 0;
        }
        let bytes = self.text.as_str().as_bytes();
        let ghost b = bytes@;
        proof {
            lemma_boundary_iff(b, 0);
        }
        let mut i: usize = from - 1;
        while i > 0 && 0x80 <= bytes[i] && bytes[i] <= 0xbf
            invariant
                b == bytes@,
                b == self@.bytes(),
                0 <= i < from <= b.len(),
                is_char_boundary(b, 0),
                prev_boundary_of(b, from as int) == prev_boundary_of(b, i + 1),
            decreases i,
        {
            proof {
                lemma_boundary_iff(b, i as int);
            }
            i = i - 1;
        }
        proof {
            lemma_boundary_iff(b, i as int);
        }
        i
    }

    /// The character boundary after byte offset `from` (the end stays put).
    pub fn next_boundary(&self, from: usize) -> (r: usize)
        requires
            is_char_boundary(self@.bytes(), from as int),
        ensures
            r == next_boundary_of(self@.bytes(), from as int),
            is_char_boundary(self@.bytes(), r as int),
            from < self@.bytes().len() ==> from < r,
    {
        proof {
            use_type_invariant(self);
        }
        let bytes = self.text.as_str().as_bytes();
        let ghost b = bytes@;
        if from >= bytes.len() {
            return from;
        }
        let mut i: usize = from + 1;
        while i < bytes.len() && 0x80 <= bytes[i] && bytes[i] <= 0xbf
            invariant
                b == bytes@,
                b == self@.bytes(),
                from < i <= b.len(),
                b.len() < usize::MAX,
                next_boundary_of(b, from as int) == next_boundary_of(b, i - 1),
            decreases b.len() - i,
        {
            proof {
                lemma_boundary_iff(b, i as int);
                assert(next_boundary_of(b, i - 1) == next_boundary_of(b, i as int));
            }
            i = i + 1;
        }
        proof {
            lemma_boundary_iff(b, i as int);
        }
        i
    }

    /// Removes the character before the cursor, if any.
    pub fn backspace(&mut self)
        ensures
            final(self)@.wf(),
            final(self)@ == old(self)@.after_backspace(),
    {
        proof {
            use_type_invariant(&*self);
        }
        if self.cursor == 0 {
            return;
        }
        let ghost b = self@.bytes();
        let ghost c = self.cursor as int;
        let prev = self.prev_boundary(self.cursor);
        let EditorState { mut text, cursor, scroll_line, .. } = self.take();
        string_drain(&mut text, prev, cursor);
        let ghost nb = b.subrange(0, prev as int) + b.subrange(c, b.len() as int);
        proof {
            lemma_boundary_iff(b, c);
            lemma_boundary_iff(nb, prev as int);
            if c < b.len() {
                assert(nb[prev as int] == b[c]);
            }
        }
        let total_lines = count_lines(text.as_str());
        proof {
            lemma_view_wf(old(self)@, nb, prev as int);
        }
        *self = EditorState { text, cursor: prev, scroll_line, total_lines };
        assert(self@ == old(self)@.after_backspace());
    }

    /// Removes the character at the cursor, if any.
    pub fn delete_forward(&mut self)
        ensures
            final(self)@.wf(),
            final(self)@ == old(self)@.after_delete_forward(),
    {
        proof {
            use_type_invariant(&*self);
        }
        if self.cursor >= self.text.as_str().len() {
            return;
        }
        let ghost b = self@.bytes();
        let ghost c = self.cursor as int;
        let next = self.next_boundary(self.cursor);
        let EditorState { mut text, cursor, scroll_line, .. } = self.take();
        string_drain(&mut text, cursor, next);
        let ghost nb = b.subrange(0, c) + b.subrange(next as int, b.len() as int);
        proof {
            lemma_boundary_iff(b, next as int);
            lemma_boundary_iff(nb, c);
            if next < b.len() {
                assert(nb[c] == b[next as int]);
            }
        }
        let total_lines = count_lines(text.as_str());
        proof {
            lemma_view_wf(old(self)@, nb, c);
        }
        *self = EditorState { text, cursor, scroll_line, total_lines };
        assert(self@ == old(self)@.after_delete_forward());
    }

    /// Moves the cursor one character left (it stays at the start).
    pub fn move_left(&mut self)
        ensures
            final(self)@.wf(),
            final(self)@ == old(self)@.after_move_left(),
    {
        proof {
            use_type_invariant(&*self);
        }
        self.cursor = self.prev_boundary(self.cursor);
    }

    /// Moves the cursor one character right (it stays at the end).
    pub fn move_right(&mut self)
        ensures
            final(self)@.wf(),
            final(self)@ == old(self)@.after_move_right(),
    {
        proof {
            use_type_invariant(&*self);
        }
        if self.cursor < self.text.as_str().len() {
            self.cursor = self.next_boundary(self.cursor);
        }
    }

    /// Moves the cursor to the start of its line.
    pub fn move_to_line_start(&mut self)
        ensures
            final(self)@.wf(),
            final(self)@ == old(self)@.after_line_start(),
    {
        proof {
            use_type_invariant(&*self);
        }
        let bytes = self.text.as_str().as_bytes();
        let ghost b = bytes@;
        let mut i: usize = self.cursor;
        while i > 0 && bytes[i - 1] != NEWLINE
            invariant
                b == bytes@,
                b == self@.bytes(),
                0 <= i <= self.cursor <= b.len(),
                line_start_of(b, self.cursor as int) == line_start_of(b, i as int),
            decreases i,
        {
            i = i - 1;
        }
        proof {
            if i > 0 {
                lemma_boundary_after_ascii(b, i - 1);
            } else {
                lemma_boundary_iff(b, 0);
            }
        }
        self.cursor = i;
    }

    /// Moves the cursor to the end of its line.
    pub fn move_to_line_end(&mut self)
        ensures
            final(self)@.wf(),
            final(self)@ == old(self)@.after_line_end(),
    {
        proof {
            use_type_invariant(&*self);
        }
        let bytes = self.text.as_str().as_bytes();
        let ghost b = bytes@;
        let mut i: usize = self.cursor;
        while i < bytes.len() && bytes[i] != NEWLINE
            invariant
                b == bytes@,
                b == self@.bytes(),
                self.cursor <= i <= b.len(),
                line_end_of(b, self.cursor as int) == line_end_of(b, i as int),
            decreases b.len() - i,
        {
            i = i + 1;
        }
        proof {
            lemma_boundary_iff(b, i as int);
        }
        self.cursor = i;
    }

    /// Scrolls the viewport by `delta` lines, staying between the first line
    /// and the last.
    pub fn scroll_lines(&mut self, delta: i32)
        ensures
            final(self)@.wf(),
            final(self)@ == old(self)@.after_scroll(delta as int),
    {
        proof {
            use_type_invariant(&*self);
        }
        let max_scroll = self.total_lines.saturating_sub(1);
        let next: i128 = self.scroll_line as i128 + delta as i128;
        let clamped: i128 = if next < 0 {
            0
        } else if next > max_scroll as i128 {
            max_scroll as i128
        } else {
            next
        };
        self.scroll_line = clamped as usize;
    }
    /// The text shown in a viewport of `viewport_lines` lines (at least one):
    /// the lines from the scroll line on, joined with line feeds.
    pub fn visible_text(&self, viewport_lines: usize) -> (r: String)
        ensures
            encode_utf8(r@) == self@.visible(viewport_lines as int),
    {
        proof {
            use_type_invariant(self);
        }
        let text = self.text.as_str();
        let bytes = text.as_bytes();
        let ghost b = bytes@;
        let count = if viewport_lines > 1 {
            viewport_lines
        } else {
            1
        };
        proof {
            lemma_lines_of(b);
        }
        match find_line_begin(bytes, self.scroll_line) {
            None => {
                assert(window_lines(lines_of(b), self.scroll_line as int, count as int) =~= Seq::<
                    Seq<u8>,
                >::empty());
                let r = String::new();
                assert(encode_utf8(r@) =~= Seq::<u8>::empty());
                r
            },
            Some(begin) => {
                let finish = find_window_finish(bytes, self.scroll_line, begin, count);
                let ghost s = self.scroll_line as int;
                let ghost t = (if s + count < lines_of(b).len() {
                    s + count
                } else {
                    lines_of(b).len() as int
                }) - 1;
                proof {
                    lemma_join_consecutive(b, s, t);
                    lemma_line_span(b, s);
                    lemma_line_span(b, t);
                    lemma_boundary_in_prefix(b, begin as int, finish as int);
                    assert(window_lines(lines_of(b), s, count as int) =~= lines_of(b).subrange(
                        s,
                        t + 1,
                    ));
                }
                let (upto, _) = text.split_at(finish);
                let (_, shown) = upto.split_at(begin);
                assert(shown.spec_bytes() =~= b.subrange(begin as int, finish as int));
                shown.to_owned()
            },
        }
    }

    /// Puts the cursor on the cell at row `view_line` of the viewport and
    /// column `col` (a count of characters): at character `col` of that line,
    /// or at the line's end when the line is shorter; rows below the text
    /// land on its last line.
    pub fn set_cursor_from_cell(&mut self, view_line: usize, col: usize)
        requires
            old(self)@.scroll_line + view_line <= usize::MAX,
        ensures
            final(self)@.wf(),
            final(self)@ == old(self)@.after_click(view_line as int, col as int),
    {
        proof {
            use_type_invariant(&*self);
        }
        let text = self.text.as_str();
        let bytes = text.as_bytes();
        let ghost b = bytes@;
        proof {
            lemma_lines_of(b);
        }
        let target = self.scroll_line + view_line;
        let last = self.total_lines - 1;
        let line_idx = if target < last {
            target
        } else {
            last
        };
        let begin = find_line_begin(bytes, line_idx).unwrap();
        let finish = find_window_finish(bytes, line_idx, begin, 1);
        let ghost chars = decode_utf8(b.subrange(begin as int, finish as int));
        proof {
            lemma_line_span(b, line_idx as int);
            lemma_boundary_in_prefix(b, begin as int, finish as int);
            assert(chars.take(0) =~= Seq::<char>::empty());
        }
        let mut off: usize = begin;
        let mut k: usize = 0;
        while k < col && off < finish
            invariant
                b == self@.bytes(),
                self@.wf(),
                0 <= begin <= finish <= b.len(),
                is_char_boundary(b, finish as int),
                b.subrange(begin as int, finish as int) == encode_utf8(chars),
                0 <= k <= chars.len(),
                k <= col,
                off == begin + encode_utf8(chars.take(k as int)).len(),
                off <= finish,
                is_char_boundary(b, off as int),
            decreases finish - off,
        {
            proof {
                if k >= chars.len() {
                    assert(chars.take(k as int) =~= chars);
                }
                lemma_char_step(b, begin as int, finish as int, chars, k as int);
                lemma_encode_concat(chars.take(k + 1), chars.skip(k + 1));
                assert(chars =~= chars.take(k + 1) + chars.skip(k + 1));
            }
            off = self.next_boundary(off);
            k = k + 1;
        }
        proof {
            if off == finish && k < chars.len() {
                lemma_char_step(b, begin as int, finish as int, chars, k as int);
                lemma_encode_concat(chars.take(k + 1), chars.skip(k + 1));
                assert(chars =~= chars.take(k + 1) + chars.skip(k + 1));
            }
            if k >= chars.len() {
                assert(k == chars.len());
            }
        }
        self.cursor = off;
        proof {
            assert(self@ == old(self)@.after_click(view_line as int, col as int));
        }
    }
    /// Performs what `key` stands for (see [`EditorView::after_key`]).
    pub fn handle_key(&mut self, key: EditorKey)
        requires
            (key is Enter || key is Tab) ==> old(self)@.bytes().len() < isize::MAX,
        ensures
            final(self)@.wf(),
            final(self)@ == old(self)@.after_key(key),
    {
        proof {
            use_type_invariant(&*self);
        }
        match key {
            EditorKey::Backspace => self.backspace(),
            EditorKey::Delete => self.delete_forward(),
            EditorKey::Enter => {
                let line_feed = "\n";
                proof {
                    reveal_strlit("\n");
                    assert(line_feed@ =~= seq!['\n']);
                    lemma_encode_one('\n');
                }
                self.insert_text(line_feed)
            },
            EditorKey::Tab => {
                let tab = "\t";
                proof {
                    reveal_strlit("\t");
                    assert(tab@ =~= seq!['\t']);
                    lemma_encode_one('\t');
                }
                self.insert_text(tab)
            },
            EditorKey::Home => self.move_to_line_start(),
            EditorKey::End => self.move_to_line_end(),
            EditorKey::ArrowLeft => self.move_left(),
            EditorKey::ArrowRight => self.move_right(),
            EditorKey::ArrowUp => self.scroll_lines(-1),
            EditorKey::ArrowDown => self.scroll_lines(1),
            EditorKey::PageUp => self.scroll_lines(-20),
            EditorKey::PageDown => self.scroll_lines(20),
        }
    }

    /// The text to hand the renderer for a viewport of `viewport_lines`
    /// lines: the visible text, or a single space when nothing is visible, so
    /// that there is always something to lay out.
    pub fn drawable_text(&self, viewport_lines: usize) -> (r: String)
        ensures
            encode_utf8(r@) == self@.drawable(viewport_lines as int),
    {
        proof {
            use_type_invariant(self);
        }
        let visible = self.visible_text(viewport_lines);
        if visible.as_str().is_empty() {
            let space = " ";
            proof {
                reveal_strlit(" ");
                assert(space@ =~= seq![' ']);
                lemma_encode_one(' ');
                assert((0x20u32 & 0x7Fu32) as u8 == 0x20u8) by (bit_vector);
                assert(encode_utf8(space@) =~= seq![0x20u8]);
                assert(encode_utf8(visible@) =~= Seq::<u8>::empty());
            }
            space.to_owned()
        } else {
            proof {
                if encode_utf8(visible@).len() == 0 {
                    assert(visible@.len() > 0);
                    lemma_encode_concat(seq![visible@[0]], visible@.drop_first());
                    assert(visible@ =~= seq![visible@[0]] + visible@.drop_first());
                    lemma_encode_one(visible@[0]);
                    char_is_scalar(visible@[0]);
                    lemma_scalar_bytes(visible@[0] as u32);
                }
            }
            visible
        }
    }
}

} // verus!