use std::ops::Range;
use vstd::prelude::*;
use vstd::slice::slice_subrange;

use crate::mmap_buffer::MmapBuffer;

verus! {

/// Which of the two byte stores a piece points into.
#[derive(Clone, Copy, Debug, PartialEq, Eq, Structural)]
enum BufferKind {
    Original,
    Add,
}

/// A run of `len` bytes starting at `start` in one of the two stores.
#[derive(Clone, Copy, Debug, PartialEq, Eq, Structural)]
struct Piece {
    buffer: BufferKind,
    start: usize,
    len: usize,
}

/// A piece table: the document is the concatenation of its pieces, each of
/// which points either into the immutable original buffer or into the
/// append-only buffer of inserted bytes.
pub struct PieceTree {
    original: MmapBuffer,
    add: Vec<u8>,
    pieces: Vec<Piece>,
    len: usize,
}

/// `bytes` inserted into `doc` before position `offset`.
pub open spec fn spliced(doc: Seq<u8>, offset: int, bytes: Seq<u8>) -> Seq<u8> {
    doc.subrange(0, offset) + bytes + doc.subrange(offset, doc.len() as int)
}

/// `doc` with the bytes in positions `start .. end` taken out.
pub open spec fn removed(doc: Seq<u8>, start: int, end: int) -> Seq<u8> {
    doc.subrange(0, start) + doc.subrange(end, doc.len() as int)
}

/// The store a piece of the given kind points into.
spec fn store(original: Seq<u8>, add: Seq<u8>, kind: BufferKind) -> Seq<u8> {
    match kind {
        BufferKind::Original => original,
        BufferKind::Add => add,
    }
}

/// A piece is sound when it is not empty and lies inside its store.
spec fn piece_ok(original: Seq<u8>, add: Seq<u8>, p: Piece) -> bool {
    &&& p.len > 0
    &&& p.start + p.len <= store(original, add, p.buffer).len()
    &&& p.start + p.len <= usize::MAX
}

/// The bytes a piece stands for.
spec fn piece_bytes(original: Seq<u8>, add: Seq<u8>, p: Piece) -> Seq<u8> {
    store(original, add, p.buffer).subrange(p.start as int, p.start + p.len)
}

/// The bytes a run of pieces stands for, in order.
spec fn pieces_bytes(original: Seq<u8>, add: Seq<u8>, ps: Seq<Piece>) -> Seq<u8>
    decreases ps.len(),
{
    if ps.len() == 0 {
        Seq::empty()
    } else {
        pieces_bytes(original, add, ps.drop_last()) + piece_bytes(original, add, ps.last())
    }
}

spec fn all_pieces_ok(original: Seq<u8>, add: Seq<u8>, ps: Seq<Piece>) -> bool {
    forall|i: int| 0 <= i < ps.len() ==> #[trigger] piece_ok(original, add, ps[i])
}

proof fn lemma_pieces_push(original: Seq<u8>, add: Seq<u8>, ps: Seq<Piece>, p: Piece)
    ensures
        pieces_bytes(original, add, ps.push(p)) == pieces_bytes(original, add, ps) + piece_bytes(
            original,
            add,
            p,
        ),
{
    assert(ps.push(p).drop_last() =~= ps);
}

proof fn lemma_pieces_take_step(original: Seq<u8>, add: Seq<u8>, ps: Seq<Piece>, i: int)
    requires
        0 <= i < ps.len(),
    ensures
        pieces_bytes(original, add, ps.take(i + 1)) == pieces_bytes(original, add, ps.take(i))
            + piece_bytes(original, add, ps[i]),
{
    assert(ps.take(i + 1) =~= ps.take(i).push(ps[i]));
    lemma_pieces_push(original, add, ps.take(i), ps[i]);
}

/// The bytes of the first `i` pieces are a prefix of the bytes of all pieces.
proof fn lemma_pieces_prefix(original: Seq<u8>, add: Seq<u8>, ps: Seq<Piece>, i: int)
    requires
        0 <= i <= ps.len(),
    ensures
        pieces_bytes(original, add, ps.take(i)).len() <= pieces_bytes(original, add, ps).len(),
        pieces_bytes(original, add, ps.take(i)) == pieces_bytes(original, add, ps).subrange(
            0,
            pieces_bytes(original, add, ps.take(i)).len() as int,
        ),
    decreases ps.len(),
{
    if i == ps.len() {
        assert(ps.take(i) =~= ps);
    } else {
        let front = ps.drop_last();
        lemma_pieces_prefix(original, add, front, i);
        assert(front.take(i) =~= ps.take(i));
    }
}

/// Sound pieces stand for as many bytes as their lengths add up to, and
/// there are no more pieces than bytes.
proof fn lemma_pieces_len(original: Seq<u8>, add: Seq<u8>, ps: Seq<Piece>)
    requires
        all_pieces_ok(original, add, ps),
    ensures
        ps.len() <= pieces_bytes(original, add, ps).len(),
    decreases ps.len(),
{
    if ps.len() > 0 {
        let front = ps.drop_last();
        assert forall|i: int| 0 <= i < front.len() implies #[trigger] piece_ok(
            original,
            add,
            front[i],
        ) by {
            assert(front[i] == ps[i]);
        }
        lemma_pieces_len(original, add, front);
        assert(piece_ok(original, add, ps[ps.len() - 1]));
    }
}

/// Appending to the add store leaves the bytes of sound pieces unchanged.
proof fn lemma_pieces_add_grows(
    original: Seq<u8>,
    add: Seq<u8>,
    extra: Seq<u8>,
    ps: Seq<Piece>,
)
    requires
        all_pieces_ok(original, add, ps),
    ensures
        all_pieces_ok(original, add + extra, ps),
        pieces_bytes(original, add + extra, ps) == pieces_bytes(original, add, ps),
    decreases ps.len(),
{
    assert forall|i: int| 0 <= i < ps.len() implies #[trigger] piece_ok(
        original,
        add + extra,
        ps[i],
    ) by {
        assert(piece_ok(original, add, ps[i]));
    }
    if ps.len() > 0 {
        let front = ps.drop_last();
        assert forall|i: int| 0 <= i < front.len() implies #[trigger] piece_ok(
            original,
            add,
            front[i],
        ) by {
            assert(front[i] == ps[i]);
        }
        lemma_pieces_add_grows(original, add, extra, front);
        let p = ps.last();
        assert(piece_ok(original, add, ps[ps.len() - 1]));
        assert(piece_bytes(original, add + extra, p) =~= piece_bytes(original, add, p));
    }
}

/// Piece `p` cut at `split`: the head keeps the first `split` bytes, the tail the rest.
proof fn lemma_piece_cut(original: Seq<u8>, add: Seq<u8>, p: Piece, split: int)
    requires
        piece_ok(original, add, p),
        0 < split < p.len,
    ensures
        ({
            let head = Piece { buffer: p.buffer, start: p.start, len: split as usize };
            let tail = Piece {
                buffer: p.buffer,
                start: (p.start + split) as usize,
                len: (p.len - split) as usize,
            };
            &&& piece_ok(original, add, head)
            &&& piece_ok(original, add, tail)
            &&& piece_bytes(original, add, head) == piece_bytes(original, add, p).subrange(0, split)
            &&& piece_bytes(original, add, tail) == piece_bytes(original, add, p).subrange(
                split,
                p.len as int,
            )
        }),
{
    let head = Piece { buffer: p.buffer, start: p.start, len: split as usize };
    let tail = Piece {
        buffer: p.buffer,
        start: (p.start + split) as usize,
        len: (p.len - split) as usize,
    };
    assert(piece_bytes(original, add, head) =~= piece_bytes(original, add, p).subrange(0, split));
    assert(piece_bytes(original, add, tail) =~= piece_bytes(original, add, p).subrange(
        split,
        p.len as int,
    ));
}

/// The piece after the first `i` covers the next stretch of the document.
proof fn lemma_next_piece(
    original: Seq<u8>,
    add: Seq<u8>,
    ps: Seq<Piece>,
    i: int,
    doc: Seq<u8>,
    cursor: int,
)
    requires
        0 <= i < ps.len(),
        piece_ok(original, add, ps[i]),
        pieces_bytes(original, add, ps) == doc,
        pieces_bytes(original, add, ps.take(i)) == doc.subrange(0, cursor),
        0 <= cursor <= doc.len(),
    ensures
        cursor + ps[i].len <= doc.len(),
        pieces_bytes(original, add, ps.take(i + 1)) == doc.subrange(0, cursor + ps[i].len),
        piece_bytes(original, add, ps[i]) == doc.subrange(cursor, cursor + ps[i].len),
{
    lemma_pieces_take_step(original, add, ps, i);
    lemma_pieces_prefix(original, add, ps, i + 1);
    let pb = piece_bytes(original, add, ps[i]);
    let next = cursor + ps[i].len;
    assert(doc.subrange(0, next) == doc.subrange(0, cursor) + pb);
    assert forall|k: int| 0 <= k < pb.len() implies pb[k] == doc[cursor + k] by {
        assert(doc.subrange(0, next)[cursor + k] == (doc.subrange(0, cursor) + pb)[cursor + k]);
    }
    assert(pb =~= doc.subrange(cursor, next));
}

/// A sound piece may be appended to a list of sound pieces.
proof fn lemma_ok_push(original: Seq<u8>, add: Seq<u8>, ps: Seq<Piece>, p: Piece)
    requires
        all_pieces_ok(original, add, ps),
        piece_ok(original, add, p),
    ensures
        all_pieces_ok(original, add, ps.push(p)),
{
    assert forall|i: int| 0 <= i < ps.push(p).len() implies #[trigger] piece_ok(
        original,
        add,
        ps.push(p)[i],
    ) by {
        if i < ps.len() {
            assert(ps.push(p)[i] == ps[i]);
        }
    }
}

/// Cutting the piece that covers `cursor .. next` at `offset` and putting
/// `bytes` between the halves splices `bytes` into the document prefix.
proof fn lemma_splice_at_piece(doc: Seq<u8>, cursor: int, next: int, offset: int, bytes: Seq<u8>)
    requires
        0 <= cursor <= offset <= next <= doc.len(),
    ensures
        doc.subrange(0, cursor) + doc.subrange(cursor, next).subrange(0, offset - cursor) + bytes
            + doc.subrange(cursor, next).subrange(offset - cursor, next - cursor) == spliced(
            doc.subrange(0, next),
            offset,
            bytes,
        ),
{
    assert(doc.subrange(0, cursor) + doc.subrange(cursor, next).subrange(0, offset - cursor) + bytes
        + doc.subrange(cursor, next).subrange(offset - cursor, next - cursor) =~= spliced(
        doc.subrange(0, next),
        offset,
        bytes,
    ));
}

/// Copying a whole piece extends the output by the bytes the piece covers.
proof fn lemma_extend_past_piece(
    doc: Seq<u8>,
    cursor: int,
    next: int,
    offset: int,
    bytes: Seq<u8>,
    done: bool,
)
    requires
        0 <= cursor <= next <= doc.len(),
        done ==> offset <= cursor,
        0 <= offset,
    ensures
        done ==> spliced(doc.subrange(0, cursor), offset, bytes) + doc.subrange(cursor, next)
            == spliced(doc.subrange(0, next), offset, bytes),
        doc.subrange(0, cursor) + doc.subrange(cursor, next) == doc.subrange(0, next),
{
    assert(doc.subrange(0, cursor) + doc.subrange(cursor, next) =~= doc.subrange(0, next));
    if done {
        assert(spliced(doc.subrange(0, cursor), offset, bytes) + doc.subrange(cursor, next)
            =~= spliced(doc.subrange(0, next), offset, bytes));
    }
}

/// What survives of the first `cursor` bytes of `doc` when `start .. end` is
/// removed.
spec fn kept(doc: Seq<u8>, start: int, end: int, cursor: int) -> Seq<u8> {
    if cursor <= start {
        doc.subrange(0, cursor)
    } else if cursor <= end {
        doc.subrange(0, start)
    } else {
        doc.subrange(0, start) + doc.subrange(end, cursor)
    }
}

/// How `kept` grows over the stretch `cursor .. next` covered by one piece.
proof fn lemma_kept_step(doc: Seq<u8>, start: int, end: int, cursor: int, next: int)
    requires
        0 <= cursor <= next <= doc.len(),
        0 <= start < end <= doc.len(),
    ensures
        ({
            let pb = doc.subrange(cursor, next);
            &&& (next <= start || cursor >= end) ==> kept(doc, start, end, next) == kept(
                doc,
                start,
                end,
                cursor,
            ) + pb
            &&& !(next <= start || cursor >= end) ==> {
                let head = if start > cursor {
                    pb.subrange(0, start - cursor)
                } else {
                    Seq::empty()
                };
                let tail = if end < next {
                    pb.subrange(end - cursor, next - cursor)
                } else {
                    Seq::empty()
                };
                kept(doc, start, end, next) == kept(doc, start, end, cursor) + head + tail
            }
        }),
{
    let pb = doc.subrange(cursor, next);
    if next <= start || cursor >= end {
        assert(kept(doc, start, end, next) =~= kept(doc, start, end, cursor) + pb);
    } else {
        let head = if start > cursor {
            pb.subrange(0, start - cursor)
        } else {
            Seq::empty()
        };
        let tail = if end < next {
            pb.subrange(end - cursor, next - cursor)
        } else {
            Seq::empty()
        };
        assert(kept(doc, start, end, next) =~= kept(doc, start, end, cursor) + head + tail);
    }
}

/// The part of the window `start .. end` of `doc` that lies before `cursor`.
spec fn window(doc: Seq<u8>, start: int, end: int, cursor: int) -> Seq<u8> {
    if cursor <= start {
        Seq::empty()
    } else if cursor <= end {
        doc.subrange(start, cursor)
    } else {
        doc.subrange(start, end)
    }
}

/// A stretch `cursor .. next` outside the window adds nothing to it.
proof fn lemma_window_skip(doc: Seq<u8>, start: int, end: int, cursor: int, next: int)
    requires
        0 <= cursor <= next <= doc.len(),
        0 <= start <= end <= doc.len(),
        next <= start || cursor >= end,
    ensures
        window(doc, start, end, next) == window(doc, start, end, cursor),
{
    if cursor == end && next > end {
        assert(window(doc, start, end, next) =~= window(doc, start, end, cursor));
    }
}

/// A stretch `cursor .. next` that meets the window adds its overlap with it.
proof fn lemma_window_take(doc: Seq<u8>, start: int, end: int, cursor: int, next: int)
    requires
        0 <= cursor <= next <= doc.len(),
        0 <= start <= end <= doc.len(),
        !(next <= start || cursor >= end),
    ensures
        ({
            let local_start = if start > cursor {
                start - cursor
            } else {
                0
            };
            let local_end = (if end < next {
                end
            } else {
                next
            }) - cursor;
            &&& 0 <= local_start <= local_end <= next - cursor
            &&& window(doc, start, end, next) == window(doc, start, end, cursor) + doc.subrange(
                cursor,
                next,
            ).subrange(local_start, local_end)
        }),
{
    let local_start = if start > cursor {
        start - cursor
    } else {
        0
    };
    let local_end = (if end < next {
        end
    } else {
        next
    }) - cursor;
    assert(window(doc, start, end, next) =~= window(doc, start, end, cursor) + doc.subrange(
        cursor,
        next,
    ).subrange(local_start, local_end));
}

/// Deleting the bytes just inserted gives back the document as it was.
pub proof fn lemma_delete_undoes_insert(doc: Seq<u8>, offset: int, bytes: Seq<u8>)
    requires
        0 <= offset <= doc.len(),
    ensures
        removed(spliced(doc, offset, bytes), offset, offset + bytes.len()) == doc,
{
    assert(removed(spliced(doc, offset, bytes), offset, offset + bytes.len()) =~= doc);
}

/// After an insertion, the window over the inserted stretch reads back the
/// inserted bytes, and the document outside it is the old document moved
/// along.
pub proof fn lemma_read_after_insert(doc: Seq<u8>, offset: int, bytes: Seq<u8>)
    requires
        0 <= offset <= doc.len(),
    ensures
        spliced(doc, offset, bytes).len() == doc.len() + bytes.len(),
        spliced(doc, offset, bytes).subrange(offset, offset + bytes.len()) == bytes,
        spliced(doc, offset, bytes).subrange(0, offset) == doc.subrange(0, offset),
        spliced(doc, offset, bytes).subrange(offset + bytes.len(), (doc.len() + bytes.len()) as int)
            == doc.subrange(offset, doc.len() as int),
{
    let d = spliced(doc, offset, bytes);
    assert(d.subrange(offset, offset + bytes.len()) =~= bytes);
    assert(d.subrange(0, offset) =~= doc.subrange(0, offset));
    assert(d.subrange(offset + bytes.len(), (doc.len() + bytes.len()) as int) =~= doc.subrange(
        offset,
        doc.len() as int,
    ));
}

/// A deletion shortens the document by the length of the range, keeps what
/// is before the range and moves what is after it up to the range's start.
pub proof fn lemma_read_after_delete(doc: Seq<u8>, start: int, end: int)
    requires
        0 <= start <= end <= doc.len(),
    ensures
        removed(doc, start, end).len() == doc.len() - (end - start),
        removed(doc, start, end).subrange(0, start) == doc.subrange(0, start),
        removed(doc, start, end).subrange(start, doc.len() - (end - start)) == doc.subrange(
            end,
            doc.len() as int,
        ),
{
    let d = removed(doc, start, end);
    assert(d.subrange(0, start) =~= doc.subrange(0, start));
    assert(d.subrange(start, doc.len() - (end - start)) =~= doc.subrange(end, doc.len() as int));
}

/// Inserting nothing and deleting an empty range leave the document as it is.
pub proof fn lemma_empty_edits(doc: Seq<u8>, at: int)
    requires
        0 <= at <= doc.len(),
    ensures
        spliced(doc, at, Seq::empty()) == doc,
        removed(doc, at, at) == doc,
{
    assert(spliced(doc, at, Seq::empty()) =~= doc);
    assert(removed(doc, at, at) =~= doc);
}

/// Two windows side by side read the same as the window over both.
pub proof fn lemma_windows_concat(doc: Seq<u8>, a: int, b: int, c: int)
    requires
        0 <= a <= b <= c <= doc.len(),
    ensures
        doc.subrange(a, b) + doc.subrange(b, c) == doc.subrange(a, c),
{
    assert(doc.subrange(a, b) + doc.subrange(b, c) =~= doc.subrange(a, c));
}

impl View for PieceTree {
    type V = Seq<u8>;

    /// The document: the bytes of all pieces, in order.
    closed spec fn view(&self) -> Seq<u8> {
        pieces_bytes(self.original@, self.add@, self.pieces@)
    }
}

impl PieceTree {
    /// Well-formedness: every piece is non-empty and lies inside its store,
    /// and the cached length is the length of the document.
    #[verifier::type_invariant]
    spec fn wf(&self) -> bool {
        &&& all_pieces_ok(self.original@, self.add@, self.pieces@)
        &&& self.len == pieces_bytes(self.original@, self.add@, self.pieces@).len()
    }

    /// Moves the tree out, leaving an empty document behind in its place.
    fn take(&mut self) -> (r: Self)
        ensures
            r.wf(),
            r@ == old(self)@,
            r.original_bytes() == old(self).original_bytes(),
    {
        proof {
            use_type_invariant(&*self);
        }
        let mut blank = PieceTree {
            original: MmapBuffer::from_bytes(Vec::new()),
            add: Vec::new(),
            pieces: Vec::new(),
            len: 0,
        };
        std::mem::swap(self, &mut blank);
        blank
    }

    /// The original buffer the document started from.
    pub closed spec fn original_bytes(&self) -> Seq<u8> {
        self.original@
    }

    /// A document whose text is the whole of `original`.
    pub fn from_original(original: MmapBuffer) -> (r: Self)
        ensures
            r@ == original@,
            r.original_bytes() == original@,
    {
        let len = original.len();
        let pieces = if len == 0 {
            Vec::new()
        } else {
            let mut v = Vec::new();
            v.push(Piece { buffer: BufferKind::Original, start: 0, len });
            v
        };
        let add: Vec<u8> = Vec::new();
        proof {
            if len > 0 {
                let p = pieces@[0];
                assert(pieces@.drop_last() =~= Seq::<Piece>::empty());
                assert(piece_bytes(original@, add@, p) =~= original@);
                assert(piece_ok(original@, add@, pieces@[0]));
                reveal_with_fuel(pieces_bytes, 2);
                assert(pieces_bytes(original@, add@, pieces@) =~= original@);
            } else {
                assert(original@ =~= Seq::<u8>::empty());
            }
        }
        let r = Self { original, add, pieces, len };
        r
    }

    /// The number of bytes in the document.
    pub fn len(&self) -> (r: usize)
        ensures
            r == self@.len(),
    {
        proof {
            use_type_invariant(self);
        }
        self.len
    }

    /// Whether the document holds no bytes.
    pub fn is_empty(&self) -> (r: bool)
        ensures
            r <==> self@.len() == 0,
    {
        proof {
            use_type_invariant(self);
        }
        self.len == 0
    }

    /// Inserts `bytes` before position `offset` of the document.  The bytes
    /// are appended to the add store and a piece for them is spliced into the
    /// piece list, cutting the piece that `offset` falls inside in two.
    pub fn insert(&mut self, offset: usize, bytes: &[u8])
        requires
            offset <= old(self)@.len(),
            old(self)@.len() + bytes@.len() < usize::MAX,
        ensures
            final(self)@ == spliced(old(self)@, offset as int, bytes@),
            final(self).original_bytes() == old(self).original_bytes(),
    {
        proof {
            use_type_invariant(&*self);
        }
        if bytes.is_empty() {
            assert(spliced(old(self)@, offset as int, bytes@) =~= old(self)@);
            return;
        }
        let ghost doc = self@;
        let PieceTree { original, mut add, pieces, len } = self.take();
        let ghost old_add = add@;
        let add_start = add.len();
        add.extend_from_slice(bytes);
        let add_end = add.len();
        proof {
            assert(add@ =~= old_add + bytes@);
            lemma_pieces_add_grows(original@, old_add, bytes@, pieces@);
        }
        let inserted = Piece { buffer: BufferKind::Add, start: add_start, len: add_end - add_start };
        let ghost orig = original@;
        let ghost added = add@;
        let ghost ps = pieces@;
        proof {
            assert(piece_bytes(orig, added, inserted) =~= bytes@);
            lemma_pieces_len(orig, added, ps);
        }

        let n = pieces.len();
        let mut output: Vec<Piece> = Vec::with_capacity(n + 2);
        let mut cursor: usize = 0;
        let mut inserted_done = false;
        let mut i: usize = 0;
        while i < n
            invariant
                n == ps.len(),
                0 <= i <= n,
                pieces@ == ps,
                original@ == orig,
                add@ == added,
                all_pieces_ok(orig, added, ps),
                piece_ok(orig, added, inserted),
                piece_bytes(orig, added, inserted) == bytes@,
                pieces_bytes(orig, added, ps) == doc,
                offset <= doc.len(),
                doc.len() + bytes@.len() < usize::MAX,
                pieces_bytes(orig, added, ps.take(i as int)) == doc.subrange(0, cursor as int),
                cursor <= doc.len(),
                all_pieces_ok(orig, added, output@),
                !inserted_done ==> cursor <= offset,
                !inserted_done ==> pieces_bytes(orig, added, output@) == doc.subrange(
                    0,
                    cursor as int,
                ),
                inserted_done ==> offset <= cursor,
                inserted_done ==> pieces_bytes(orig, added, output@) == spliced(
                    doc.subrange(0, cursor as int),
                    offset as int,
                    bytes@,
                ),
            decreases n - i,
        {
            let piece = pieces[i];
            proof {
                assert(piece_ok(orig, added, ps[i as int]));
                lemma_next_piece(orig, added, ps, i as int, doc, cursor as int);
            }
            let next = cursor + piece.len;
            let ghost before = pieces_bytes(orig, added, output@);
            let ghost pb = piece_bytes(orig, added, piece);
            if !inserted_done && offset <= next {
                let split = offset.saturating_sub(cursor);
                if split > 0 {
                    let head = Piece { buffer: piece.buffer, start: piece.start, len: split };
                    proof {
                        if split < piece.len {
                            lemma_piece_cut(orig, added, piece, split as int);
                        } else {
                            assert(head == piece);
                            assert(pb.subrange(0, split as int) =~= pb);
                        }
                        lemma_pieces_push(orig, added, output@, head);
                        lemma_ok_push(orig, added, output@, head);
                    }
                    output.push(head);
                } else {
                    assert(before + pb.subrange(0, split as int) =~= before);
                }
                assert(pieces_bytes(orig, added, output@) == before + pb.subrange(0, split as int));
                proof {
                    lemma_pieces_push(orig, added, output@, inserted);
                    lemma_ok_push(orig, added, output@, inserted);
                }
                output.push(inserted);
                inserted_done = true;
                let ghost mid = pieces_bytes(orig, added, output@);
                if split < piece.len {
                    let tail = Piece {
                        buffer: piece.buffer,
                        start: piece.start + split,
                        len: piece.len - split,
                    };
                    proof {
                        if split > 0 {
                            lemma_piece_cut(orig, added, piece, split as int);
                        } else {
                            assert(tail == piece);
                            assert(pb.subrange(0, piece.len as int) =~= pb);
                        }
                        lemma_pieces_push(orig, added, output@, tail);
                        lemma_ok_push(orig, added, output@, tail);
                    }
                    output.push(tail);
                    assert(pieces_bytes(orig, added, output@) == mid + pb.subrange(
                        split as int,
                        piece.len as int,
                    ));
                } else {
                    assert(mid + pb.subrange(split as int, piece.len as int) =~= mid);
                }
                proof {
                    lemma_splice_at_piece(doc, cursor as int, next as int, offset as int, bytes@);
                }
            } else {
                proof {
                    lemma_pieces_push(orig, added, output@, piece);
                    lemma_ok_push(orig, added, output@, piece);
                    lemma_extend_past_piece(doc, cursor as int, next as int, offset as int, bytes@, inserted_done);
                }
                output.push(piece);
            }
            cursor = next;
            i = i + 1;
        }
        proof {
            assert(ps.take(n as int) =~= ps);
        }
        if !inserted_done {
            proof {
                lemma_pieces_push(orig, added, output@, inserted);
                lemma_ok_push(orig, added, output@, inserted);
            }
            output.push(inserted);
        }
        proof {
            assert(doc.subrange(0, doc.len() as int) =~= doc);
            assert(pieces_bytes(orig, added, output@) =~= spliced(doc, offset as int, bytes@));
        }
        *self = PieceTree { original, add, pieces: output, len: len + bytes.len() };
    }

    /// Removes the bytes in positions `range.start .. range.end` from the
    /// document.  Pieces wholly inside the range are dropped, pieces that
    /// straddle an end of it are trimmed.
    pub fn delete(&mut self, range: Range<usize>)
        requires
            range.start <= range.end <= old(self)@.len(),
        ensures
            final(self)@ == removed(old(self)@, range.start as int, range.end as int),
            final(self).original_bytes() == old(self).original_bytes(),
    {
        proof {
            use_type_invariant(&*self);
        }
        if range.start >= range.end {
            assert(removed(old(self)@, range.start as int, range.end as int) =~= old(self)@);
            return;
        }
        let start = range.start;
        let end = range.end;
        let ghost doc = self@;
        let PieceTree { original, add, pieces, len } = self.take();
        let ghost orig = original@;
        let ghost added = add@;
        let ghost ps = pieces@;
        proof {
            lemma_pieces_len(orig, added, ps);
        }
        let n = pieces.len();
        let mut output: Vec<Piece> = Vec::with_capacity(n);
        let mut cursor: usize = 0;
        let mut i: usize = 0;
        while i < n
            invariant
                n == ps.len(),
                0 <= i <= n,
                pieces@ == ps,
                original@ == orig,
                add@ == added,
                all_pieces_ok(orig, added, ps),
                pieces_bytes(orig, added, ps) == doc,
                start < end <= doc.len(),
                doc.len() <= usize::MAX,
                pieces_bytes(orig, added, ps.take(i as int)) == doc.subrange(0, cursor as int),
                cursor <= doc.len(),
                all_pieces_ok(orig, added, output@),
                pieces_bytes(orig, added, output@) == kept(doc, start as int, end as int, cursor as int),
            decreases n - i,
        {
            let piece = pieces[i];
            proof {
                assert(piece_ok(orig, added, ps[i as int]));
                lemma_next_piece(orig, added, ps, i as int, doc, cursor as int);
                lemma_kept_step(doc, start as int, end as int, cursor as int, (cursor + piece.len) as int);
            }
            let next = cursor + piece.len;
            if next <= start || cursor >= end {
                proof {
                    lemma_pieces_push(orig, added, output@, piece);
                    lemma_ok_push(orig, added, output@, piece);
                }
                output.push(piece);
            } else {
                if start > cursor {
                    let head = Piece { buffer: piece.buffer, start: piece.start, len: start - cursor };
                    proof {
                        lemma_piece_cut(orig, added, piece, (start - cursor) as int);
                        lemma_pieces_push(orig, added, output@, head);
                        lemma_ok_push(orig, added, output@, head);
                    }
                    output.push(head);
                }
                if end < next {
                    let tail = Piece {
                        buffer: piece.buffer,
                        start: piece.start + (end - cursor),
                        len: next - end,
                    };
                    proof {
                        lemma_piece_cut(orig, added, piece, (end - cursor) as int);
                        lemma_pieces_push(orig, added, output@, tail);
                        lemma_ok_push(orig, added, output@, tail);
                    }
                    output.push(tail);
                }
            }
            cursor = next;
            i = i + 1;
        }
        proof {
            assert(ps.take(n as int) =~= ps);
            assert(kept(doc, start as int, end as int, doc.len() as int) =~= removed(
                doc,
                start as int,
                end as int,
            ));
        }
        *self = PieceTree { original, add, pieces: output, len: len - (end - start) };
    }

    /// The whole document as one vector of bytes.
    pub fn to_bytes(&self) -> (r: Vec<u8>)
        ensures
            r@ == self@,
    {
        proof {
            use_type_invariant(self);
        }
        let mut out: Vec<u8> = Vec::with_capacity(self.len);
        let n = self.pieces.len();
        let mut i: usize = 0;
        while i < n
            invariant
                n == self.pieces@.len(),
                0 <= i <= n,
                self.wf(),
                out@ == pieces_bytes(self.original@, self.add@, self.pieces@.take(i as int)),
            decreases n - i,
        {
            let piece = self.pieces[i];
            proof {
                assert(piece_ok(self.original@, self.add@, self.pieces@[i as int]));
                lemma_pieces_take_step(self.original@, self.add@, self.pieces@, i as int);
            }
            let source = self.resolve_piece(piece);
            out.extend_from_slice(source);
            assert(out@ =~= pieces_bytes(self.original@, self.add@, self.pieces@.take(i + 1)));
            i = i + 1;
        }
        assert(self.pieces@.take(n as int) =~= self.pieces@);
        out
    }

    /// The bytes in positions `start .. end` of the document, read piece by
    /// piece without materialising the rest of the document.
    pub fn visible_text(&self, start: usize, end: usize) -> (r: Vec<u8>)
        requires
            start <= end <= self@.len(),
        ensures
            r@ == self@.subrange(start as int, end as int),
    {
        proof {
            use_type_invariant(self);
        }
        let ghost doc = self@;
        let ghost orig = self.original@;
        let ghost add = self.add@;
        let ghost ps = self.pieces@;
        let mut out: Vec<u8> = Vec::with_capacity(end - start);
        let n = self.pieces.len();
        let mut cursor: usize = 0;
        let mut i: usize = 0;
        while i < n
            invariant
                n == ps.len(),
                0 <= i <= n,
                self.wf(),
                self.pieces@ == ps,
                self.original@ == orig,
                self.add@ == add,
                doc == pieces_bytes(orig, add, ps),
                start <= end <= doc.len(),
                doc.len() <= usize::MAX,
                pieces_bytes(orig, add, ps.take(i as int)) == doc.subrange(0, cursor as int),
                cursor <= doc.len(),
                out@ == window(doc, start as int, end as int, cursor as int),
            decreases n - i,
        {
            let piece = self.pieces[i];
            proof {
                assert(piece_ok(orig, add, ps[i as int]));
                lemma_next_piece(orig, add, ps, i as int, doc, cursor as int);
            }
            let next = cursor + piece.len;
            if next <= start || cursor >= end {
                proof {
                    lemma_window_skip(doc, start as int, end as int, cursor as int, next as int);
                }
                cursor = next;
                i = i + 1;
                continue;
            }
            let local_start = start.saturating_sub(cursor);
            let local_end = (if end < next { end } else { next }) - cursor;
            let source = self.resolve_piece(piece);
            let part = slice_subrange(source, local_start, local_end);
            proof {
                lemma_window_take(doc, start as int, end as int, cursor as int, next as int);
            }
            out.extend_from_slice(part);
            assert(out@ =~= window(doc, start as int, end as int, next as int));
            cursor = next;
            i = i + 1;
        }
        proof {
            assert(ps.take(n as int) =~= ps);
            assert(doc.subrange(0, cursor as int) =~= doc);
            assert(window(doc, start as int, end as int, cursor as int) =~= doc.subrange(
                start as int,
                end as int,
            ));
        }
        out
    }

    /// The bytes a sound piece stands for, borrowed from its store.
    fn resolve_piece(&self, piece: Piece) -> (r: &[u8])
        requires
            piece_ok(self.original@, self.add@, piece),
        ensures
            r@ == piece_bytes(self.original@, self.add@, piece),
    {
        let end = piece.start + piece.len;
        match piece.buffer {
            BufferKind::Original => slice_subrange(self.original.as_slice(), piece.start, end),
            BufferKind::Add => slice_subrange(self.add.as_slice(), piece.start, end),
        }
    }
}

} // verus!
