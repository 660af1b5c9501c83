use vstd::prelude::*;

use crate::line_index::{lemma_positions_concat, lemma_positions_of, positions_of, shifted, NEWLINE};

verus! {

/// The lines of `bytes`: the pieces between line feeds, line feeds left out.
/// There is always at least one line; a trailing line feed ends in an empty
/// line.
pub open spec fn lines_of(bytes: Seq<u8>) -> Seq<Seq<u8>>
    decreases bytes.len(),
{
    if bytes.len() == 0 {
        seq![Seq::empty()]
    } else {
        let front = lines_of(bytes.drop_last());
        if bytes.last() == NEWLINE {
            front.push(Seq::empty())
        } else {
            front.update(front.len() - 1, front.last().push(bytes.last()))
        }
    }
}

/// `lines` put back together with a line feed between each two.
pub open spec fn join_lines(lines: Seq<Seq<u8>>) -> Seq<u8>
    decreases lines.len(),
{
    if lines.len() == 0 {
        Seq::empty()
    } else if lines.len() == 1 {
        lines[0]
    } else {
        join_lines(lines.drop_last()) + seq![NEWLINE] + lines.last()
    }
}

/// At most `count` lines of `lines`, starting with line `first` (none when
/// there is no line `first`).
pub open spec fn window_lines(lines: Seq<Seq<u8>>, first: int, count: int) -> Seq<Seq<u8>> {
    if first >= lines.len() {
        Seq::empty()
    } else if first + count >= lines.len() {
        lines.subrange(first, lines.len() as int)
    } else {
        lines.subrange(first, first + count)
    }
}

/// The offset at which line `i` starts, when the lines are laid out one after
/// another with a line feed after each: the sum of `len + 1` over the lines
/// before it.
pub open spec fn offset_of_line(lines: Seq<Seq<u8>>, i: int) -> int
    decreases i,
{
    if i <= 0 {
        0
    } else {
        offset_of_line(lines, i - 1) + lines[i - 1].len() + 1
    }
}

/// The offset of the first byte of line `i` of `bytes`.
pub open spec fn line_begin(bytes: Seq<u8>, i: int) -> int {
    if i == 0 {
        0
    } else {
        positions_of(bytes, NEWLINE)[i - 1] + 1
    }
}

/// The offset just past the last byte of line `i` of `bytes`: the line feed
/// that ends it, or the end of the bytes for the last line.
pub open spec fn line_finish(bytes: Seq<u8>, i: int) -> int {
    if i < positions_of(bytes, NEWLINE).len() {
        positions_of(bytes, NEWLINE)[i]
    } else {
        bytes.len() as int
    }
}

/// Where the lines of `bytes` begin and end.
pub proof fn lemma_line_bounds(bytes: Seq<u8>, i: int)
    requires
        0 <= i <= positions_of(bytes, NEWLINE).len(),
    ensures
        0 <= line_begin(bytes, i) <= line_finish(bytes, i) <= bytes.len(),
        i < positions_of(bytes, NEWLINE).len() ==> bytes[line_finish(bytes, i)] == NEWLINE,
        i < positions_of(bytes, NEWLINE).len() ==> line_begin(bytes, i + 1) == line_finish(
            bytes,
            i,
        ) + 1,
        forall|k: int|
            line_begin(bytes, i) <= k < line_finish(bytes, i) ==> bytes[k] != NEWLINE,
{
    lemma_positions_of(bytes, NEWLINE);
    let p = positions_of(bytes, NEWLINE);
    if i > 0 {
        assert(p[i - 1] < p[i] || i == p.len());
    }
    assert forall|k: int| line_begin(bytes, i) <= k < line_finish(bytes, i) implies bytes[k]
        != NEWLINE by {
        if bytes[k] == NEWLINE {
            lemma_newline_is_position(bytes, k);
            let m = choose|m: int| 0 <= m < p.len() && p[m] == k;
            if m < i {
                if m < i - 1 {
                    assert(p[m] < p[i - 1]);
                }
            } else if m > i {
                assert(p[i] < p[m]);
            }
        }
    }
}

/// Every line feed in `bytes` appears among its line-feed positions.
pub proof fn lemma_newline_is_position(bytes: Seq<u8>, k: int)
    requires
        0 <= k < bytes.len(),
        bytes[k] == NEWLINE,
    ensures
        exists|m: int|
            0 <= m < positions_of(bytes, NEWLINE).len() && positions_of(bytes, NEWLINE)[m] == k,
    decreases bytes.len(),
{
    let front = bytes.drop_last();
    let p = positions_of(bytes, NEWLINE);
    if k == bytes.len() - 1 {
        assert(p[p.len() - 1] == k);
    } else {
        lemma_newline_is_position(front, k);
        let m = choose|m: int|
            0 <= m < positions_of(front, NEWLINE).len() && positions_of(front, NEWLINE)[m] == k;
        assert(p[m] == k);
    }
}

/// The lines of `bytes` are the stretches between its line feeds.
pub proof fn lemma_lines_of(bytes: Seq<u8>)
    ensures
        lines_of(bytes).len() == positions_of(bytes, NEWLINE).len() + 1,
        forall|i: int|
            0 <= i < lines_of(bytes).len() ==> #[trigger] lines_of(bytes)[i] == bytes.subrange(
                line_begin(bytes, i),
                line_finish(bytes, i),
            ),
    decreases bytes.len(),
{
    if bytes.len() == 0 {
        assert(lines_of(bytes)[0] =~= bytes.subrange(0, 0));
    } else {
        let n = bytes.len() as int;
        let front = bytes.drop_last();
        lemma_lines_of(front);
        lemma_positions_of(front, NEWLINE);
        let pf = positions_of(front, NEWLINE);
        let p = positions_of(bytes, NEWLINE);
        let lf = lines_of(front);
        let l = lines_of(bytes);
        assert forall|i: int| 0 <= i < pf.len() implies p[i] == pf[i] by {}
        assert forall|i: int| 0 <= i < l.len() implies #[trigger] l[i] == bytes.subrange(
            line_begin(bytes, i),
            line_finish(bytes, i),
        ) by {
            if i < lf.len() {
                assert(line_begin(bytes, i) == line_begin(front, i));
            }
            if bytes.last() == NEWLINE {
                if i < lf.len() {
                    assert(line_finish(bytes, i) == line_finish(front, i));
                    assert(lf[i] =~= bytes.subrange(line_begin(bytes, i), line_finish(bytes, i)));
                } else {
                    assert(l[i] =~= bytes.subrange(line_begin(bytes, i), line_finish(bytes, i)));
                }
            } else {
                if i < lf.len() - 1 {
                    assert(line_finish(bytes, i) == line_finish(front, i));
                    assert(lf[i] =~= bytes.subrange(line_begin(bytes, i), line_finish(bytes, i)));
                } else {
                    assert(l[i] =~= bytes.subrange(line_begin(bytes, i), line_finish(bytes, i)));
                }
            }
        }
    }
}

/// Consecutive lines `i ..= j`, joined with line feeds, are the bytes from
/// the start of line `i` to the end of line `j`.
pub proof fn lemma_join_consecutive(bytes: Seq<u8>, i: int, j: int)
    requires
        0 <= i <= j < lines_of(bytes).len(),
    ensures
        line_begin(bytes, i) <= line_finish(bytes, j),
        join_lines(lines_of(bytes).subrange(i, j + 1)) == bytes.subrange(
            line_begin(bytes, i),
            line_finish(bytes, j),
        ),
    decreases j - i,
{
    lemma_lines_of(bytes);
    let l = lines_of(bytes);
    lemma_line_bounds(bytes, i);
    lemma_line_bounds(bytes, j);
    if i == j {
        assert(l.subrange(i, j + 1)[0] == l[i]);
    } else {
        lemma_join_consecutive(bytes, i, j - 1);
        lemma_line_bounds(bytes, j - 1);
        assert(l.subrange(i, j + 1).drop_last() =~= l.subrange(i, j));
        assert(l.subrange(i, j + 1).last() == l[j]);
        assert(bytes.subrange(line_begin(bytes, i), line_finish(bytes, j - 1)) + seq![NEWLINE]
            + bytes.subrange(line_begin(bytes, j), line_finish(bytes, j)) =~= bytes.subrange(
            line_begin(bytes, i),
            line_finish(bytes, j),
        ));
    }
}

/// Laying the lines of `bytes` out one after another with a line feed after
/// each puts line `i` where it starts in `bytes`.
pub proof fn lemma_offset_of_line(bytes: Seq<u8>, i: int)
    requires
        0 <= i < lines_of(bytes).len(),
    ensures
        offset_of_line(lines_of(bytes), i) == line_begin(bytes, i),
    decreases i,
{
    lemma_lines_of(bytes);
    if i > 0 {
        lemma_offset_of_line(bytes, i - 1);
        lemma_line_bounds(bytes, i - 1);
        assert(lines_of(bytes)[i - 1].len() == line_finish(bytes, i - 1) - line_begin(bytes, i - 1));
    }
}

/// The line feeds before `at` are the first few of all the line feeds, and
/// the next one (if any) is at or after `at`.
pub proof fn lemma_positions_prefix(bytes: Seq<u8>, at: int)
    requires
        0 <= at <= bytes.len(),
    ensures
        ({
            let before = positions_of(bytes.subrange(0, at), NEWLINE);
            let all = positions_of(bytes, NEWLINE);
            &&& before.len() <= all.len()
            &&& before == all.take(before.len() as int)
            &&& before.len() < all.len() ==> all[before.len() as int] >= at
        }),
{
    let a = bytes.subrange(0, at);
    let c = bytes.subrange(at, bytes.len() as int);
    assert(a + c =~= bytes);
    lemma_positions_concat(a, c, NEWLINE);
    lemma_positions_of(c, NEWLINE);
    let before = positions_of(a, NEWLINE);
    let all = positions_of(bytes, NEWLINE);
    assert(before =~= all.take(before.len() as int));
    if before.len() < all.len() {
        let k = before.len() as int;
        assert(all[k] == shifted(positions_of(c, NEWLINE), at)[0]);
    }
}

/// One more byte adds a line-feed position exactly when the byte is a line feed.
pub proof fn lemma_positions_step(bytes: Seq<u8>, at: int)
    requires
        0 <= at < bytes.len(),
    ensures
        positions_of(bytes.subrange(0, at + 1), NEWLINE) == positions_of(bytes.subrange(0, at), NEWLINE)
            + if bytes[at] == NEWLINE {
            seq![at]
        } else {
            Seq::empty()
        },
{
    assert(bytes.subrange(0, at + 1).drop_last() =~= bytes.subrange(0, at));
}

} // verus!
