use memchr::memchr_iter;
use rayon::iter::{IndexedParallelIterator, ParallelIterator};
use rayon::slice::ParallelSlice;
use vstd::prelude::*;
use vstd::relations::{sorted_by, total_ordering};
use vstd::seq_lib::lemma_sorted_unique;

verus! {

/// The byte value of a line feed.
pub const NEWLINE: u8 = 10;

/// The positions in `bytes` that hold `needle`, in increasing order.
pub open spec fn positions_of(bytes: Seq<u8>, needle: u8) -> Seq<int>
    decreases bytes.len(),
{
    if bytes.len() == 0 {
        Seq::empty()
    } else {
        positions_of(bytes.drop_last(), needle) + if bytes.last() == needle {
            seq![bytes.len() - 1]
        } else {
            Seq::empty()
        }
    }
}

/// Every element of `s` moved up by `d`.
pub open spec fn shifted(s: Seq<int>, d: int) -> Seq<int> {
    s.map_values(|p: int| p + d)
}

/// A sequence of machine-sized offsets read as integers.
pub open spec fn ints(s: Seq<usize>) -> Seq<int> {
    s.map_values(|x: usize| x as int)
}

/// The byte offsets at which the lines of `bytes` start: offset 0, and the
/// offset just past every line feed.
pub open spec fn line_starts_of(bytes: Seq<u8>) -> Seq<int> {
    seq![0int] + shifted(positions_of(bytes, NEWLINE), 1)
}

/// A well-formed table of line starts: it is not empty, it begins at 0 and
/// it strictly increases.
pub open spec fn line_starts_ok(starts: Seq<int>) -> bool {
    &&& starts.len() >= 1
    &&& starts[0] == 0
    &&& forall|i: int, j: int| 0 <= i < j < starts.len() ==> starts[i] < starts[j]
}

/// The number of chunks of `chunk_size` bytes (the last one possibly
/// shorter) that `len` bytes fall into.
pub open spec fn chunk_count(len: int, chunk_size: int) -> int {
    (len + chunk_size - 1) / chunk_size
}

/// The end of chunk `k` when `len` bytes are cut into `chunk_size`-byte chunks.
pub open spec fn chunk_end(len: int, chunk_size: int, k: int) -> int {
    if (k + 1) * chunk_size < len {
        (k + 1) * chunk_size
    } else {
        len
    }
}

/// The line starts that chunk `k` of `bytes` contributes, as absolute offsets.
pub open spec fn chunk_starts(bytes: Seq<u8>, chunk_size: int, k: int) -> Seq<int> {
    shifted(
        positions_of(bytes.subrange(k * chunk_size, chunk_end(bytes.len() as int, chunk_size, k)), NEWLINE),
        k * chunk_size + 1,
    )
}

/// `s` with every run of equal neighbours cut down to one element.
pub open spec fn without_adjacent_repeats(s: Seq<usize>) -> Seq<usize>
    decreases s.len(),
{
    if s.len() <= 1 {
        s
    } else if s.last() == s[s.len() - 2] {
        without_adjacent_repeats(s.drop_last())
    } else {
        without_adjacent_repeats(s.drop_last()).push(s.last())
    }
}

/// The order `<=` on offsets.
pub open spec fn offset_le(a: usize, b: usize) -> bool {
    a <= b
}

/// Calls `memchr::memchr_iter` and collects the positions it yields.
/// Trusted to yield every position of `needle` in `haystack`, once each and
/// in increasing order (the crate documents it as an iterator over all
/// occurrences of the needle, front to back).
#[verifier::external_body]
fn memchr_positions(needle: u8, haystack: &[u8]) -> (r: Vec<usize>)
    ensures
        ints(r@) == positions_of(haystack@, needle),
{
    memchr_iter(needle, haystack).collect()
}

/// Calls rayon's `par_chunks(chunk_size).enumerate().map(..).collect()`,
/// running [`chunk_line_starts`] on every chunk on the thread pool.  Trusted
/// to cut `bytes` into consecutive chunks of `chunk_size` bytes (the last one
/// possibly shorter), to hand each closure call the chunk together with its
/// index, and to collect the results in chunk order (rayon documents
/// `par_chunks` as non-overlapping chunks of at most `chunk_size` elements and
/// collects indexed iterators in order).  What each element holds is what
/// the verified [`chunk_line_starts`] ensures for that chunk.
#[verifier::external_body]
fn par_chunk_line_starts(bytes: &[u8], chunk_size: usize) -> (r: Vec<Vec<usize>>)
    requires
        chunk_size > 0,
    ensures
        r@.len() == chunk_count(bytes@.len() as int, chunk_size as int),
        forall|k: int|
            0 <= k < r@.len() ==> ints(#[trigger] r@[k]@) == chunk_starts(
                bytes@,
                chunk_size as int,
                k,
            ),
{
    bytes.par_chunks(chunk_size).enumerate().map(
        |(chunk_idx, chunk)| chunk_line_starts(chunk_idx, chunk_size, chunk),
    ).collect()
}

/// Calls `<[usize]>::sort_unstable` on the vector's elements.  Trusted to
/// leave the same elements in ascending order (std documents it as sorting
/// the slice in ascending order).
#[verifier::external_body]
fn sort_offsets(v: &mut Vec<usize>)
    ensures
        final(v)@.to_multiset() == old(v)@.to_multiset(),
        sorted_by(final(v)@, |a: usize, b: usize| offset_le(a, b)),
{
    v.sort_unstable();
}

/// Calls `Vec::<usize>::dedup`.  Trusted to remove every element equal to the
/// one before it (std documents it as removing consecutive repeated elements).
#[verifier::external_body]
fn dedup_offsets(v: &mut Vec<usize>)
    ensures
        final(v)@ == without_adjacent_repeats(old(v)@),
{
    v.dedup();
}

/// Every position that `positions_of` reports holds the needle, lies inside
/// the bytes, and the positions strictly increase.
pub proof fn lemma_positions_of(bytes: Seq<u8>, needle: u8)
    ensures
        forall|i: int|
            0 <= i < positions_of(bytes, needle).len() ==> 0 <= #[trigger] positions_of(
                bytes,
                needle,
            )[i] < bytes.len() && bytes[positions_of(bytes, needle)[i]] == needle,
        forall|i: int, j: int|
            0 <= i < j < positions_of(bytes, needle).len() ==> positions_of(bytes, needle)[i]
                < positions_of(bytes, needle)[j],
        positions_of(bytes, needle).len() <= bytes.len(),
    decreases bytes.len(),
{
    if bytes.len() > 0 {
        let front = bytes.drop_last();
        lemma_positions_of(front, needle);
        let pf = positions_of(front, needle);
        let p = positions_of(bytes, needle);
        assert forall|i: int| 0 <= i < pf.len() implies p[i] == pf[i] by {}
        assert forall|i: int| 0 <= i < pf.len() implies bytes[pf[i]] == front[pf[i]] by {}
    }
}

/// The positions of the needle in `a + b` are those in `a`, followed by
/// those in `b` moved past `a`.
pub proof fn lemma_positions_concat(a: Seq<u8>, b: Seq<u8>, needle: u8)
    ensures
        positions_of(a + b, needle) == positions_of(a, needle) + shifted(
            positions_of(b, needle),
            a.len() as int,
        ),
    decreases b.len(),
{
    if b.len() == 0 {
        assert(a + b =~= a);
        assert(shifted(positions_of(b, needle), a.len() as int) =~= Seq::<int>::empty());
        assert(positions_of(a, needle) + Seq::<int>::empty() =~= positions_of(a, needle));
    } else {
        let front = b.drop_last();
        lemma_positions_concat(a, front, needle);
        assert((a + b).drop_last() =~= a + front);
        let tail = if b.last() == needle {
            seq![b.len() - 1]
        } else {
            Seq::<int>::empty()
        };
        assert(shifted(positions_of(b, needle), a.len() as int) =~= shifted(
            positions_of(front, needle),
            a.len() as int,
        ) + shifted(tail, a.len() as int));
        assert(positions_of(a + b, needle) =~= positions_of(a, needle) + shifted(
            positions_of(b, needle),
            a.len() as int,
        ));
    }
}

/// The line starts of any bytes form a well-formed table, one entry longer
/// than the number of line feeds.
pub proof fn lemma_line_starts_ok(bytes: Seq<u8>)
    ensures
        line_starts_ok(line_starts_of(bytes)),
        line_starts_of(bytes).len() == positions_of(bytes, NEWLINE).len() + 1,
        forall|i: int|
            0 <= i < line_starts_of(bytes).len() ==> #[trigger] line_starts_of(bytes)[i]
                <= bytes.len(),
{
    lemma_positions_of(bytes, NEWLINE);
    let s = line_starts_of(bytes);
    let p = positions_of(bytes, NEWLINE);
    assert forall|i: int| 1 <= i < s.len() implies s[i] == p[i - 1] + 1 by {}
    assert forall|i: int, j: int| 0 <= i < j < s.len() implies s[i] < s[j] by {
        if i > 0 {
            assert(s[i] == p[i - 1] + 1);
        }
        assert(s[j] == p[j - 1] + 1);
        assert(0 <= p[j - 1]);
    }
    assert forall|i: int| 0 <= i < s.len() implies #[trigger] s[i] <= bytes.len() by {
        if i > 0 {
            assert(s[i] == p[i - 1] + 1);
            assert(p[i - 1] < bytes.len());
        }
    }
}

/// Sorting and removing repeats leave a strictly increasing sequence as it is.
proof fn lemma_increasing_is_normal(s: Seq<usize>)
    requires
        forall|i: int, j: int| 0 <= i < j < s.len() ==> s[i] < s[j],
    ensures
        without_adjacent_repeats(s) == s,
        sorted_by(s, |a: usize, b: usize| offset_le(a, b)),
        total_ordering(|a: usize, b: usize| offset_le(a, b)),
    decreases s.len(),
{
    if s.len() > 1 {
        lemma_increasing_is_normal(s.drop_last());
        assert(s.drop_last().push(s.last()) =~= s);
    }
}

/// Cutting `len` bytes into chunks: chunk `k` of the `chunk_count` chunks
/// begins inside the bytes, and the chunks together reach the end.
proof fn lemma_chunk_bounds(len: int, chunk_size: int, k: int)
    requires
        len >= 0,
        chunk_size > 0,
        0 <= k,
    ensures
        k < chunk_count(len, chunk_size) ==> k * chunk_size < len,
        k >= chunk_count(len, chunk_size) ==> k * chunk_size >= len,
        k * chunk_size <= (k + 1) * chunk_size,
{
    let n = chunk_count(len, chunk_size);
    assert(k * chunk_size <= (k + 1) * chunk_size) by (nonlinear_arith)
        requires
            chunk_size > 0,
    ;
    assert(n * chunk_size <= len + chunk_size - 1 < n * chunk_size + chunk_size) by (nonlinear_arith)
        requires
            chunk_size > 0,
            len >= 0,
            n == (len + chunk_size - 1) / chunk_size,
    ;
    if k < n {
        assert(k * chunk_size <= n * chunk_size - chunk_size) by (nonlinear_arith)
            requires
                chunk_size > 0,
                k <= n - 1,
        ;
    } else {
        assert(n * chunk_size <= k * chunk_size) by (nonlinear_arith)
            requires
                chunk_size > 0,
                n <= k,
        ;
    }
}

/// The line starts that one chunk of the text contributes: one past every
/// line feed in the chunk, as offsets into the whole text.
fn chunk_line_starts(chunk_idx: usize, chunk_size: usize, chunk: &[u8]) -> (r: Vec<usize>)
    requires
        chunk_idx * chunk_size + chunk@.len() <= usize::MAX,
    ensures
        ints(r@) == shifted(positions_of(chunk@, NEWLINE), chunk_idx * chunk_size + 1),
{
    let base = chunk_idx * chunk_size;
    let found = memchr_positions(NEWLINE, chunk);
    proof {
        lemma_positions_of(chunk@, NEWLINE);
    }
    let ghost target = shifted(positions_of(chunk@, NEWLINE), chunk_idx * chunk_size + 1);
    let mut out: Vec<usize> = Vec::with_capacity(found.len());
    assert(ints(found@).len() == found@.len());
    let mut j: usize = 0;
    while j < found.len()
        invariant
            0 <= j <= found@.len(),
            base == chunk_idx * chunk_size,
            base + chunk@.len() <= usize::MAX,
            ints(found@) == positions_of(chunk@, NEWLINE),
            forall|i: int|
                0 <= i < positions_of(chunk@, NEWLINE).len() ==> 0 <= #[trigger] positions_of(
                    chunk@,
                    NEWLINE,
                )[i] < chunk@.len(),
            target == shifted(positions_of(chunk@, NEWLINE), chunk_idx * chunk_size + 1),
            ints(out@) == target.take(j as int),
            out@.len() == j,
            target.len() == found@.len(),
        decreases found@.len() - j,
    {
        assert(ints(found@)[j as int] == found@[j as int] as int);
        let idx = found[j];
        assert(target[j as int] == base + idx + 1);
        let ghost prev = out@;
        out.push(base + idx + 1);
        assert forall|i: int| 0 <= i < j + 1 implies ints(out@)[i] == target.take(j + 1)[i] by {
            if i < j {
                assert(out@[i] == prev[i]);
                assert(ints(prev)[i] == target.take(j as int)[i]);
            }
        }
        assert(ints(out@) =~= target.take(j + 1));
        j = j + 1;
    }
    assert(target.take(found@.len() as int) =~= target);
    out
}

/// The line of the offset at which line `i` starts is line `i`: whatever
/// `line_of_offset` returns for `starts[i]` under its contract is `i`.
pub proof fn lemma_line_of_line_start(starts: Seq<int>, i: int, r: int)
    requires
        line_starts_ok(starts),
        0 <= i < starts.len(),
        0 <= r < starts.len(),
        starts[r] <= starts[i],
        r + 1 < starts.len() ==> starts[i] < starts[r + 1],
    ensures
        r == i,
{
    if r < i {
        assert(starts[r + 1] <= starts[i]) by {
            if r + 1 < i {
                assert(starts[r + 1] < starts[i]);
            }
        }
    } else if r > i {
        assert(starts[i] < starts[r]);
    }
}

/// An index of line starts over a text, built in parallel chunks.
#[derive(Debug)]
pub struct LineIndex {
    line_starts: Vec<usize>,
}

impl View for LineIndex {
    type V = Seq<int>;

    /// The start offset of every line, in order.
    closed spec fn view(&self) -> Seq<int> {
        ints(self.line_starts@)
    }
}

impl Clone for LineIndex {
    fn clone(&self) -> (r: Self)
        ensures
            r@ == self@,
            line_starts_ok(r@),
    {
        proof {
            use_type_invariant(self);
        }
        let line_starts = self.line_starts.clone();
        assert(line_starts@ =~= self.line_starts@);
        LineIndex { line_starts }
    }
}

impl LineIndex {
    #[verifier::type_invariant]
    spec fn starts_are_ok(self) -> bool {
        line_starts_ok(ints(self.line_starts@))
    }

    /// Indexes the starts of the lines of `bytes`, scanning chunks of
    /// `chunk_size` bytes (at least one) in parallel.
    pub fn build(bytes: &[u8], chunk_size: usize) -> (r: Self)
        ensures
            r@ == line_starts_of(bytes@),
            line_starts_ok(r@),
    {
        let chunk_size = if chunk_size > 1 {
            chunk_size
        } else {
            1
        };
        let mut line_starts: Vec<usize> = vec![0usize];
        let chunks = par_chunk_line_starts(bytes, chunk_size);
        let ghost len = bytes@.len() as int;
        let ghost cs = chunk_size as int;
        let n = chunks.len();
        proof {
            lemma_chunk_bounds(len, cs, 0);
        }
        let mut k: usize = 0;
        while k < n
            invariant
                n == chunks@.len(),
                n == chunk_count(len, cs),
                len == bytes@.len(),
                cs == chunk_size,
                chunk_size > 0,
                0 <= k <= n,
                forall|m: int| 0 <= m < chunks@.len() ==> ints(#[trigger] chunks@[m]@) == chunk_starts(
                    bytes@,
                    cs,
                    m,
                ),
                k < n ==> k * cs < len,
                ints(line_starts@) == line_starts_of(
                    bytes@.subrange(
                        0,
                        if k * cs < len {
                            k * cs
                        } else {
                            len
                        },
                    ),
                ),
            decreases n - k,
        {
            proof {
                lemma_chunk_bounds(len, cs, k as int);
                lemma_chunk_bounds(len, cs, k + 1);
                lemma_chunk_bounds(len, cs, 0);
            }
            let ghost before = line_starts@;
            let ghost lo = k * cs;
            let ghost hi = chunk_end(len, cs, k as int);
            line_starts.extend_from_slice(chunks[k].as_slice());
            proof {
                let prefix = bytes@.subrange(0, lo);
                let chunk = bytes@.subrange(lo, hi);
                assert(prefix + chunk =~= bytes@.subrange(0, hi));
                lemma_positions_concat(prefix, chunk, NEWLINE);
                assert(ints(line_starts@) =~= ints(before) + ints(chunks@[k as int]@));
                assert(shifted(positions_of(bytes@.subrange(0, hi), NEWLINE), 1) =~= shifted(
                    positions_of(prefix, NEWLINE),
                    1,
                ) + shifted(positions_of(chunk, NEWLINE), lo + 1));
                assert(ints(line_starts@) =~= line_starts_of(bytes@.subrange(0, hi)));

            }
            k = k + 1;
        }
        proof {
            lemma_chunk_bounds(len, cs, n as int);
            assert(bytes@.subrange(0, len) =~= bytes@);
        }
        let ghost built = line_starts@;
        proof {
            lemma_line_starts_ok(bytes@);
            assert forall|i: int, j: int| 0 <= i < j < built.len() implies built[i] < built[j] by {
                assert(ints(built)[i] == built[i] as int);
                assert(ints(built)[j] == built[j] as int);
            }
            lemma_increasing_is_normal(built);
        }
        sort_offsets(&mut line_starts);
        proof {
            lemma_sorted_unique(line_starts@, built, |a: usize, b: usize| offset_le(a, b));
        }
        dedup_offsets(&mut line_starts);
        Self { line_starts }
    }

    /// The number of lines.
    pub fn line_count(&self) -> (r: usize)
        ensures
            r == self@.len(),
            line_starts_ok(self@),
    {
        proof {
            use_type_invariant(self);
        }
        self.line_starts.len()
    }

    /// The start offset of line `line`, if there is such a line.
    pub fn line_start(&self, line: usize) -> (r: Option<usize>)
        ensures
            line < self@.len() ==> r == Some(self@[line as int] as usize),
            line >= self@.len() ==> r is None,
            line_starts_ok(self@),
    {
        proof {
            use_type_invariant(self);
        }
        if line < self.line_starts.len() {
            Some(self.line_starts[line])
        } else {
            None
        }
    }

    /// The line that byte offset `offset` falls on: the last line whose start
    /// is at or before `offset`.
    pub fn line_of_offset(&self, offset: usize) -> (r: usize)
        ensures
            r < self@.len(),
            self@[r as int] <= offset,
            r + 1 < self@.len() ==> offset < self@[r + 1],
            line_starts_ok(self@),
    {
        proof {
            use_type_invariant(self);
        }
        let ghost s = self@;
        let mut lo: usize = 0;
        let mut hi: usize = self.line_starts.len();
        while lo < hi
            invariant
                s == ints(self.line_starts@),
                line_starts_ok(s),
                0 <= lo <= hi <= s.len(),
                forall|i: int| 0 <= i < lo ==> #[trigger] s[i] <= offset,
                forall|i: int| hi <= i < s.len() ==> #[trigger] s[i] > offset,
            decreases hi - lo,
        {
            let mid = lo + (hi - lo) / 2;
            assert(s[mid as int] == self.line_starts@[mid as int] as int);
            if self.line_starts[mid] <= offset {
                assert forall|i: int| 0 <= i < mid + 1 implies #[trigger] s[i] <= offset by {
                    if i < mid {
                        assert(s[i] < s[mid as int]);
                    }
                }
                lo = mid + 1;
            } else {
                assert forall|i: int| mid <= i < s.len() implies #[trigger] s[i] > offset by {
                    if i > mid {
                        assert(s[mid as int] < s[i]);
                    }
                }
                hi = mid;
            }
        }
        assert(s[0] <= offset);
        lo - 1
    }
}

} // verus!
