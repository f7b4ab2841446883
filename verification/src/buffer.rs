//! A piece-table buffer.
//!
//! The logical sequence is the concatenation of the slices named by the
//! pieces, each slice taken from one of two backing arrays: the immutable
//! original array, or the append-only add array.

use vstd::prelude::*;
use vstd::seq_lib::lemma_flatten_concat;

verus! {

/// Either the original immutable array or the add array.
#[derive(Debug, PartialEq, Eq, Copy, Clone, Structural)]
pub enum WithBuffer {
    Original,
    Add,
}

/// A contiguous slice of one backing array: `length` elements starting at
/// `start`.
#[derive(Debug, PartialEq, Eq, Copy, Clone, Structural)]
pub struct Piece {
    pub with_buffer: WithBuffer,
    pub start: usize,
    pub length: usize,
}

/// Where a logical index falls in the piece list: the first element of a
/// piece, its last element, strictly inside it, or one past the whole
/// sequence.  The second component is the offset within the piece.
#[derive(Debug, Copy, Clone)]
pub enum Location {
    Head(usize),
    Middle(usize, usize),
    Tail(usize, usize),
    Eof,
}

/// Memo of the most recent edit, used to fast-path an adjacent follow-on
/// edit without rescanning the piece list.
#[derive(Debug, Copy, Clone)]
pub(crate) enum ReusableEdit {
    Insert(usize, bool),
    Remove(Location),
    Idle,
}

/// A sequence over an immutable original array and an append-only add
/// array, represented by an ordered list of pieces.  Supports insertion and
/// removal at arbitrary indices in O(pieces) time, O(1) amortised for runs
/// of adjacent edits.
pub struct PtBuffer<T> {
    pub(crate) original: Vec<T>,
    pub(crate) add: Vec<T>,
    pub(crate) pieces: Vec<Piece>,
    pub(crate) length: usize,
    pub(crate) last_edit_idx: usize,
    pub(crate) reusable_edit: ReusableEdit,
}

/// Sum of the lengths of a sequence of pieces.
pub open spec fn pieces_len_sum(ps: Seq<Piece>) -> int
    decreases ps.len(),
{
    if ps.len() == 0 {
        0
    } else {
        ps.first().length + pieces_len_sum(ps.drop_first())
    }
}

pub proof fn lemma_pieces_len_sum_push(ps: Seq<Piece>, p: Piece)
    ensures
        pieces_len_sum(ps.push(p)) == pieces_len_sum(ps) + p.length,
    decreases ps.len(),
{
    assert(ps.push(p).len() == ps.len() + 1);
    assert(pieces_len_sum(ps.push(p)) == ps.push(p).first().length + pieces_len_sum(
        ps.push(p).drop_first(),
    ));
    if ps.len() == 0 {
        assert(ps.push(p).first() == p);
        assert(ps.push(p).drop_first() =~= Seq::<Piece>::empty());
        assert(pieces_len_sum(Seq::<Piece>::empty()) == 0);
    } else {
        assert(ps.push(p).first() == ps.first());
        assert(ps.push(p).drop_first() =~= ps.drop_first().push(p));
        lemma_pieces_len_sum_push(ps.drop_first(), p);
    }
}

/// A list of non-empty pieces has at least as many elements as pieces.
pub proof fn lemma_len_sum_at_least_count(ps: Seq<Piece>)
    requires
        forall|i: int| 0 <= i < ps.len() ==> (#[trigger] ps[i]).length >= 1,
    ensures
        pieces_len_sum(ps) >= ps.len(),
    decreases ps.len(),
{
    if ps.len() > 0 {
        assert(ps.first().length >= 1);
        assert(forall|i: int|
            0 <= i < ps.drop_first().len() ==> (#[trigger] ps.drop_first()[i]).length >= 1);
        lemma_len_sum_at_least_count(ps.drop_first());
    }
}

/// The piece list after inserting a one-element `Add` piece at offset `d`
/// of piece `k` (the new element's value sits at `add_len`, the old top of
/// the add array): placed just before the piece when `d` is 0, otherwise
/// the piece is truncated to its first `d` elements and the split-off tail
/// follows the new piece.
pub open spec fn spliced_insert(ps: Seq<Piece>, k: int, d: int, add_len: int) -> Seq<Piece> {
    if d == 0 {
        ps.insert(
            k,
            (Piece { with_buffer: WithBuffer::Add, start: add_len as usize, length: 1 }),
        )
    } else {
        ps.take(k) + seq![
            (Piece {
                with_buffer: ps[k].with_buffer,
                start: ps[k].start,
                length: d as usize,
            }),
            (Piece { with_buffer: WithBuffer::Add, start: add_len as usize, length: 1 }),
            (Piece {
                with_buffer: ps[k].with_buffer,
                start: (ps[k].start + d) as usize,
                length: (ps[k].length - d) as usize,
            }),
        ] + ps.skip(k + 1)
    }
}

/// The piece list after removing the element at offset `d` of piece `k`:
/// at the head the piece's start advances (and an emptied piece is
/// dropped), at the tail its length shrinks, and in the middle it splits
/// around the removed element.
pub open spec fn spliced_remove(ps: Seq<Piece>, k: int, d: int) -> Seq<Piece> {
    if d == 0 {
        if ps[k].length == 1 {
            ps.remove(k)
        } else {
            ps.update(
                k,
                (Piece {
                    with_buffer: ps[k].with_buffer,
                    start: (ps[k].start + 1) as usize,
                    length: (ps[k].length - 1) as usize,
                }),
            )
        }
    } else if d == ps[k].length - 1 {
        ps.update(
            k,
            (Piece {
                with_buffer: ps[k].with_buffer,
                start: ps[k].start,
                length: (ps[k].length - 1) as usize,
            }),
        )
    } else {
        ps.take(k) + seq![
            (Piece { with_buffer: ps[k].with_buffer, start: ps[k].start, length: d as usize }),
            (Piece {
                with_buffer: ps[k].with_buffer,
                start: (ps[k].start + d + 1) as usize,
                length: (ps[k].length - d - 1) as usize,
            }),
        ] + ps.skip(k + 1)
    }
}

impl<T> View for PtBuffer<T> {
    type V = Seq<T>;

    closed spec fn view(&self) -> Seq<T> {
        self.slices_of(self.pieces@).flatten()
    }
}

impl<T> PtBuffer<T> {
    /// The backing array a piece refers into.
    pub closed spec fn buf_seq(self, w: WithBuffer) -> Seq<T> {
        match w {
            WithBuffer::Original => self.original@,
            WithBuffer::Add => self.add@,
        }
    }

    /// The slice of the backing array that a piece names.
    pub closed spec fn piece_seq(self, p: Piece) -> Seq<T> {
        self.buf_seq(p.with_buffer).subrange(p.start as int, p.start + p.length)
    }

    /// The slices named by a list of pieces, in order.
    pub closed spec fn slices_of(self, ps: Seq<Piece>) -> Seq<Seq<T>> {
        Seq::new(ps.len(), |i: int| self.piece_seq(ps[i]))
    }

    /// The current piece list, as an abstract sequence.
    pub closed spec fn spec_pieces(self) -> Seq<Piece> {
        self.pieces@
    }

    /// The sizes of the two backing arrays.
    pub open spec fn original_len(self) -> nat {
        self.buf_seq(WithBuffer::Original).len()
    }

    pub open spec fn add_len(self) -> nat {
        self.buf_seq(WithBuffer::Add).len()
    }

    /// A piece stays within the bounds of its backing array.
    pub closed spec fn piece_in_bounds(self, p: Piece) -> bool {
        p.start + p.length <= self.buf_seq(p.with_buffer).len()
    }

    pub closed spec fn pieces_in_bounds(self, ps: Seq<Piece>) -> bool {
        forall|i: int| 0 <= i < ps.len() ==> self.piece_in_bounds(#[trigger] ps[i])
    }

    /// Logical length of the first `k` pieces.
    pub open spec fn prefix_len(self, k: int) -> int {
        pieces_len_sum(self.spec_pieces().take(k))
    }

    /// How the prefix sums step: each piece adds its length, starting
    /// from zero.  Lets a caller of the splice contracts compute which
    /// piece holds a given index.
    pub proof fn lemma_prefix_len_step(self, k: int)
        requires
            0 <= k < self.spec_pieces().len(),
        ensures
            self.prefix_len(0) == 0,
            self.prefix_len(k + 1) == self.prefix_len(k) + self.spec_pieces()[k].length,
    {
        let ps = self.spec_pieces();
        assert(ps.take(0) =~= Seq::<Piece>::empty());
        assert(ps.take(k + 1) =~= ps.take(k).push(ps[k]));
        lemma_pieces_len_sum_push(ps.take(k), ps[k]);
    }

    /// The reuse hint records no recent edit.
    pub closed spec fn hint_cleared(self) -> bool {
        self.reusable_edit is Idle
    }

    /// The absolute index of the most recent edit.
    pub closed spec fn spec_last_edit(self) -> nat {
        self.last_edit_idx as nat
    }

    /// The piece the insert hint names, when the last mutation appended to
    /// one.
    pub closed spec fn spec_insert_hint(self) -> Option<usize> {
        match self.reusable_edit {
            ReusableEdit::Insert(k, _) => Some(k),
            _ => None,
        }
    }

    /// An insert at `at` takes the fast path: the last mutation left an
    /// insert hint and `at` continues it one step forward.
    pub open spec fn insert_fast_path(self, at: int) -> bool {
        self.spec_insert_hint() is Some && at >= 1 && at - 1 == self.spec_last_edit()
    }

    /// The last piece is an `Add` piece ending exactly at the top of the
    /// add array, so an appended element can extend it in place.
    pub open spec fn last_piece_tails_add(self) -> bool {
        let ps = self.spec_pieces();
        &&& ps.len() > 0
        &&& ps.last().with_buffer == WithBuffer::Add
        &&& ps.last().start + ps.last().length == self.add_len()
    }

    pub(crate) proof fn lemma_slices_len(self, ps: Seq<Piece>)
        requires
            self.pieces_in_bounds(ps),
        ensures
            self.slices_of(ps).flatten().len() == pieces_len_sum(ps),
        decreases ps.len(),
    {
        if ps.len() == 0 {
            assert(self.slices_of(ps) =~= Seq::<Seq<T>>::empty());
        } else {
            let rest = ps.drop_first();
            assert(self.slices_of(ps).drop_first() =~= self.slices_of(rest));
            assert(self.slices_of(ps).first() == self.piece_seq(ps.first()));
            self.lemma_slices_len(rest);
        }
    }

    pub(crate) proof fn lemma_view_split(self, ps: Seq<Piece>, k: int)
        requires
            0 <= k <= ps.len(),
        ensures
            self.slices_of(ps).flatten() == self.slices_of(ps.take(k)).flatten()
                + self.slices_of(ps.skip(k)).flatten(),
    {
        assert(self.slices_of(ps) =~= self.slices_of(ps.take(k)) + self.slices_of(ps.skip(k)));
        lemma_flatten_concat(self.slices_of(ps.take(k)), self.slices_of(ps.skip(k)));
    }

    /// Decompose the flattened view around piece `k`.
    pub(crate) proof fn lemma_view_at(self, ps: Seq<Piece>, k: int)
        requires
            self.pieces_in_bounds(ps),
            0 <= k < ps.len(),
        ensures
            self.slices_of(ps).flatten() == self.slices_of(ps.take(k)).flatten()
                + self.piece_seq(ps[k]) + self.slices_of(ps.skip(k + 1)).flatten(),
            self.slices_of(ps.take(k)).flatten().len() == pieces_len_sum(ps.take(k)),
    {
        self.lemma_view_split(ps, k);
        let tail = ps.skip(k);
        self.lemma_view_split(tail, 1);
        assert(tail.take(1) =~= seq![ps[k]]);
        assert(self.slices_of(tail.take(1)) =~= seq![self.piece_seq(ps[k])]);
        self.slices_of(tail.take(1)).lemma_flatten_singleton();
        assert(tail.skip(1) =~= ps.skip(k + 1));
        assert(self.slices_of(tail) =~= self.slices_of(ps).skip(k));
        assert(self.pieces_in_bounds(ps.take(k))) by {
            assert(forall|i: int|
                0 <= i < k ==> #[trigger] ps.take(k)[i] == ps[i]);
        }
        self.lemma_slices_len(ps.take(k));
        assert(self.slices_of(ps).flatten() == self.slices_of(ps.take(k)).flatten()
            + self.piece_seq(ps[k]) + self.slices_of(ps.skip(k + 1)).flatten());
    }

    /// Growing the add array does not change the slices of pieces that were
    /// already within bounds.
    proof fn lemma_slices_stable(self, other: Self, ps: Seq<Piece>)
        requires
            other.original@ == self.original@,
            self.add@.len() <= other.add@.len(),
            other.add@.take(self.add@.len() as int) == self.add@,
            self.pieces_in_bounds(ps),
        ensures
            other.slices_of(ps) == self.slices_of(ps),
            other.pieces_in_bounds(ps),
    {
        assert forall|i: int| 0 <= i < ps.len() implies other.piece_seq(#[trigger] ps[i])
            == self.piece_seq(ps[i]) && other.piece_in_bounds(ps[i]) by {
            let p = ps[i];
            assert(self.piece_in_bounds(p));
            assert(other.buf_seq(p.with_buffer).len() >= self.buf_seq(p.with_buffer).len());
            assert(other.piece_seq(p) =~= self.piece_seq(p)) by {
                assert(forall|j: int| 0 <= j < self.add@.len()
                    ==> other.add@[j] == self.add@.take(self.add@.len() as int)[j]);
            }
        }
        assert(other.slices_of(ps) =~= self.slices_of(ps));
    }

    /// The view and the piece-level spec functions depend only on the
    /// backing arrays and the piece list, not on the bookkeeping fields.
    proof fn lemma_view_parts(self, other: Self)
        requires
            other.original@ == self.original@,
            other.add@ == self.add@,
            other.pieces@ == self.pieces@,
        ensures
            other@ == self@,
            forall|ps: Seq<Piece>| #[trigger] other.slices_of(ps) == self.slices_of(ps),
            forall|p: Piece| #[trigger] other.piece_seq(p) == self.piece_seq(p),
            forall|p: Piece|
                #[trigger] other.piece_in_bounds(p) <==> self.piece_in_bounds(p),
            forall|ps: Seq<Piece>|
                #[trigger] other.pieces_in_bounds(ps) <==> self.pieces_in_bounds(ps),
            forall|k: int| #[trigger] other.prefix_len(k) == self.prefix_len(k),
            forall|loc: Location| #[trigger] other.loc_ok(loc) <==> self.loc_ok(loc),
            forall|loc: Location| #[trigger] other.loc_index(loc) == self.loc_index(loc),
            forall|k: int, le: int|
                #[trigger] other.insert_hint_ok(k, le) <==> self.insert_hint_ok(k, le),
            forall|loc: Location, le: int|
                #[trigger] other.remove_hint_ok(loc, le) <==> self.remove_hint_ok(loc, le),
    {
        assert forall|ps: Seq<Piece>| #[trigger] other.slices_of(ps) == self.slices_of(ps) by {
            assert(other.slices_of(ps) =~= self.slices_of(ps));
        }
        assert(other@ == self@);
        assert forall|loc: Location| #[trigger] other.loc_index(loc) == self.loc_index(loc) by {
            match loc {
                Location::Eof => {
                    assert(other.loc_index(loc) == self.loc_index(loc));
                },
                _ => {},
            }
        }
    }

    /// Well-formedness: every piece is non-empty and within bounds, the
    /// recorded length is the logical length, and the reuse hint (if any)
    /// is consistent with the piece list.
    pub closed spec fn wf(self) -> bool {
        &&& self.pieces_in_bounds(self.pieces@)
        &&& (forall|i: int|
            0 <= i < self.pieces@.len() ==> (#[trigger] self.pieces@[i]).length >= 1)
        &&& self.length == self@.len()
        &&& self.hint_ok()
    }

    /// What well-formedness gives every piece: bounds, non-emptiness, and
    /// a logical length that fits the machine.
    pub(crate) proof fn lemma_wf_basics(self)
        requires
            self.wf(),
        ensures
            self.pieces_in_bounds(self.pieces@),
            forall|i: int|
                0 <= i < self.pieces@.len() ==> (#[trigger] self.pieces@[i]).length >= 1,
            self@.len() <= usize::MAX,
            self.spec_pieces() == self.pieces@,
    {
    }

    /// Arithmetic on the prefix sums, for the cursor modules: prefix sums
    /// are monotone, bounded by the logical length, and step by the piece
    /// lengths.
    pub(crate) proof fn lemma_prefix_facts(self, k: int)
        requires
            self.pieces_in_bounds(self.pieces@),
            forall|i: int|
                0 <= i < self.pieces@.len() ==> (#[trigger] self.pieces@[i]).length >= 1,
            0 <= k <= self.pieces@.len(),
        ensures
            k <= self.prefix_len(k) <= self@.len(),
            k == 0 ==> self.prefix_len(k) == 0,
            k < self.pieces@.len() ==> self.prefix_len(k + 1) == self.prefix_len(k)
                + self.pieces@[k].length && self.prefix_len(k + 1) <= self@.len(),
            k == self.pieces@.len() ==> self.prefix_len(k) == self@.len(),
    {
        let ps = self.pieces@;
        self.lemma_prefix_le_total(k);
        assert(forall|i: int|
            0 <= i < k ==> (#[trigger] ps.take(k)[i]).length >= 1) by {
            assert(forall|i: int| 0 <= i < k ==> #[trigger] ps.take(k)[i] == ps[i]);
        }
        lemma_len_sum_at_least_count(ps.take(k));
        if k < ps.len() {
            self.lemma_prefix_le_total(k + 1);
            assert(ps.take(k + 1) =~= ps.take(k).push(ps[k]));
            lemma_pieces_len_sum_push(ps.take(k), ps[k]);
        }
        if k == ps.len() {
            assert(ps.take(k) =~= ps);
            self.lemma_slices_len(ps);
        }
        if k == 0 {
            assert(ps.take(0) =~= Seq::<Piece>::empty());
        }
    }

    /// What each location kind means, for the cursor modules.
    pub(crate) proof fn lemma_loc_parts(self, loc: Location)
        requires
            self.loc_ok(loc),
        ensures
            match loc {
                Location::Head(k) => k < self.pieces@.len() && self.loc_index(loc)
                    == self.prefix_len(k as int),
                Location::Tail(k, d) => k < self.pieces@.len() && d + 1
                    == self.pieces@[k as int].length && d >= 1 && self.loc_index(loc)
                    == self.prefix_len(k as int) + d,
                Location::Middle(k, d) => k < self.pieces@.len() && 0 < d < self.pieces@[
                    k as int
                ].length && self.loc_index(loc) == self.prefix_len(k as int) + d,
                Location::Eof => false,
            },
    {
    }

    /// Read the element at `offset` within piece `piece_idx`, which holds
    /// logical index `prefix_len(piece_idx) + offset`.
    pub(crate) fn element_at(&self, piece_idx: usize, offset: usize) -> (r: &T)
        requires
            self.pieces_in_bounds(self.pieces@),
            piece_idx < self.pieces@.len(),
            offset < self.pieces@[piece_idx as int].length,
        ensures
            self.prefix_len(piece_idx as int) + offset < self@.len(),
            *r == self@[self.prefix_len(piece_idx as int) + offset],
    {
        let ghost ps = self.pieces@;
        let ghost k = piece_idx as int;
        proof {
            self.lemma_view_at(ps, k);
            self.lemma_prefix_le_total(k);
            self.lemma_prefix_le_total(k + 1);
            assert(ps.take(k + 1) =~= ps.take(k).push(ps[k]));
            lemma_pieces_len_sum_push(ps.take(k), ps[k]);
            assert(self.piece_in_bounds(ps[k]));
            assert(self.original.len() == self.original@.len());
            assert(self.add.len() == self.add@.len());
        }
        let piece = self.pieces[piece_idx];
        match piece.with_buffer {
            WithBuffer::Original => &self.original[piece.start + offset],
            WithBuffer::Add => &self.add[piece.start + offset],
        }
    }

    /// A location names an existing element of the piece list, with the
    /// offset agreeing with the location's kind.
    pub closed spec fn loc_ok(self, loc: Location) -> bool {
        let ps = self.pieces@;
        match loc {
            Location::Head(k) => 0 <= k < ps.len(),
            Location::Tail(k, d) => 0 <= k < ps.len() && d + 1 == ps[k as int].length && d >= 1,
            Location::Middle(k, d) => 0 <= k < ps.len() && 0 < d < ps[k as int].length,
            Location::Eof => false,
        }
    }

    /// The logical index a location resolves to.
    pub closed spec fn loc_index(self, loc: Location) -> int {
        match loc {
            Location::Head(k) => self.prefix_len(k as int),
            Location::Tail(k, d) => self.prefix_len(k as int) + d,
            Location::Middle(k, d) => self.prefix_len(k as int) + d,
            Location::Eof => self@.len() as int,
        }
    }

    /// An insert hint names the piece holding the element last inserted:
    /// the piece tails the add array and its last element sits at the
    /// recorded edit index.
    spec fn insert_hint_ok(self, k: int, last_edit: int) -> bool {
        let ps = self.pieces@;
        &&& 0 <= k < ps.len()
        &&& ps[k].with_buffer == WithBuffer::Add
        &&& ps[k].start + ps[k].length == self.add@.len()
        &&& self.prefix_len(k) + ps[k].length == last_edit + 1
    }

    /// A remove hint names the element just before the one last removed.
    spec fn remove_hint_ok(self, loc: Location, last_edit: int) -> bool {
        &&& self.loc_ok(loc)
        &&& last_edit >= 1
        &&& self.loc_index(loc) == last_edit - 1
    }

    spec fn hint_ok(self) -> bool {
        match self.reusable_edit {
            ReusableEdit::Insert(k, _) => self.insert_hint_ok(
                k as int,
                self.last_edit_idx as int,
            ),
            ReusableEdit::Remove(loc) => self.remove_hint_ok(loc, self.last_edit_idx as int),
            ReusableEdit::Idle => true,
        }
    }

    /// Construct a buffer over `src`: a single piece spanning the whole of
    /// it (none at all when `src` is empty), the reuse hint cleared.
    pub fn new(src: Vec<T>) -> (buf: Self)
        ensures
            buf@ == src@,
            buf.wf(),
            buf.buf_seq(WithBuffer::Original) == src@,
            buf.add_len() == 0,
            buf.hint_cleared(),
            buf.spec_insert_hint() is None,
            buf.spec_pieces() == (if src@.len() == 0 {
                Seq::<Piece>::empty()
            } else {
                seq![
                    (Piece {
                        with_buffer: WithBuffer::Original,
                        start: 0,
                        length: src@.len() as usize,
                    }),
                ]
            }),
    {
        let src_len = src.len();
        let mut pieces: Vec<Piece> = Vec::new();
        if src_len > 0 {
            pieces.push(
                Piece { with_buffer: WithBuffer::Original, start: 0, length: src_len },
            );
        }
        let buf = PtBuffer {
            original: src,
            add: Vec::new(),
            pieces,
            length: src_len,
            last_edit_idx: 0,
            reusable_edit: ReusableEdit::Idle,
        };
        proof {
            if src_len > 0 {
                assert(buf.slices_of(buf.pieces@) =~= seq![buf.piece_seq(buf.pieces@[0])]);
                buf.slices_of(buf.pieces@).lemma_flatten_singleton();
                assert(buf.piece_seq(buf.pieces@[0]) =~= buf.original@);
            } else {
                assert(buf.slices_of(buf.pieces@) =~= Seq::<Seq<T>>::empty());
                assert(buf@ =~= buf.original@);
            }
        }
        buf
    }

    /// The logical length of the sequence.
    pub fn len(&self) -> (n: usize)
        requires
            self.wf(),
        ensures
            n == self@.len(),
    {
        self.length
    }

    /// The piece-list invariant, as it holds after construction and after
    /// every mutation: each stored piece is non-empty and lies within its
    /// backing array, and the logical length is the sum of the piece
    /// lengths.
    pub proof fn lemma_pieces_invariant(self)
        requires
            self.wf(),
        ensures
            forall|i: int|
                0 <= i < self.spec_pieces().len() ==> (#[trigger] self.spec_pieces()[i]).length
                    >= 1,
            forall|i: int|
                0 <= i < self.spec_pieces().len() ==> (#[trigger] self.spec_pieces()[i]).start
                    + self.spec_pieces()[i].length <= self.buf_seq(
                    self.spec_pieces()[i].with_buffer,
                ).len(),
            pieces_len_sum(self.spec_pieces()) == self@.len(),
    {
        assert(self.pieces@.take(self.pieces@.len() as int) =~= self.pieces@);
        self.lemma_slices_len(self.pieces@);
        assert(forall|i: int|
            0 <= i < self.pieces@.len() ==> self.piece_in_bounds(#[trigger] self.pieces@[i]));
    }

    /// The current piece list; read-only.
    pub fn pieces(&self) -> (ps: &Vec<Piece>)
        ensures
            ps@ == self.spec_pieces(),
    {
        &self.pieces
    }

    /// The logical length splits at piece `k` into the prefix sum and the
    /// (non-negative) sum of the remaining piece lengths.
    pub(crate) proof fn lemma_prefix_le_total(self, k: int)
        requires
            self.pieces_in_bounds(self.pieces@),
            0 <= k <= self.pieces@.len(),
        ensures
            self.prefix_len(k) + pieces_len_sum(self.pieces@.skip(k)) == self@.len(),
            pieces_len_sum(self.pieces@.skip(k)) >= 0,
            self.prefix_len(k) >= 0,
    {
        let ps = self.pieces@;
        self.lemma_view_split(ps, k);
        assert(self.pieces_in_bounds(ps.take(k)));
        assert(self.pieces_in_bounds(ps.skip(k)));
        self.lemma_slices_len(ps.take(k));
        self.lemma_slices_len(ps.skip(k));
    }

    /// Resolve a logical index to the piece and offset holding it; `Eof`
    /// exactly when the index equals the logical length.
    pub(crate) fn index_to_piece_loc(&self, idx: usize) -> (loc: Location)
        requires
            self.pieces_in_bounds(self.pieces@),
            idx <= self@.len(),
            self@.len() <= usize::MAX,
        ensures
            idx < self@.len() ==> self.loc_ok(loc) && self.loc_index(loc) == idx,
            idx == self@.len() ==> loc is Eof,
    {
        let ghost ps = self.pieces@;
        let n = self.pieces.len();
        let mut acc: usize = 0;
        let mut piece_idx: usize = 0;
        proof {
            assert(ps.take(0) =~= Seq::<Piece>::empty());
        }
        while piece_idx < n
            invariant
                self.pieces_in_bounds(self.pieces@),
                idx <= self@.len(),
                self@.len() <= usize::MAX,
                ps == self.pieces@,
                n == ps.len(),
                piece_idx <= n,
                acc == self.prefix_len(piece_idx as int),
                acc <= idx,
            decreases n - piece_idx,
        {
            let piece = self.pieces[piece_idx];
            proof {
                self.lemma_prefix_le_total(piece_idx as int);
                self.lemma_prefix_le_total(piece_idx + 1);
                assert(ps.take(piece_idx + 1) =~= ps.take(piece_idx as int).push(
                    ps[piece_idx as int],
                ));
                lemma_pieces_len_sum_push(ps.take(piece_idx as int), ps[piece_idx as int]);
            }
            if idx < acc + piece.length {
                let delta = idx - acc;
                if delta == 0 {
                    return Location::Head(piece_idx);
                } else if delta == piece.length - 1 {
                    return Location::Tail(piece_idx, delta);
                } else {
                    return Location::Middle(piece_idx, delta);
                }
            }
            acc = acc + piece.length;
            piece_idx = piece_idx + 1;
        }
        proof {
            assert(ps.take(n as int) =~= ps);
            self.lemma_slices_len(ps);
        }
        Location::Eof
    }

    /// Append an element.  If the last piece tails the add array it is
    /// extended in place; otherwise a fresh one-element piece is appended.
    pub fn push(&mut self, value: T)
        requires
            old(self).wf(),
            old(self)@.len() < usize::MAX,
        ensures
            final(self).wf(),
            final(self)@ == old(self)@.push(value),
            final(self).spec_last_edit() == old(self)@.len(),
            final(self).spec_insert_hint() == Some(
                (if old(self).last_piece_tails_add() {
                    (old(self).spec_pieces().len() - 1) as usize
                } else {
                    old(self).spec_pieces().len() as usize
                }),
            ),
            final(self).buf_seq(WithBuffer::Add) == old(self).buf_seq(WithBuffer::Add).push(
                value,
            ),
            final(self).buf_seq(WithBuffer::Original) == old(self).buf_seq(
                WithBuffer::Original,
            ),
            final(self).spec_pieces() == (if old(self).last_piece_tails_add() {
                old(self).spec_pieces().update(
                    old(self).spec_pieces().len() - 1,
                    (Piece {
                        with_buffer: WithBuffer::Add,
                        start: old(self).spec_pieces().last().start,
                        length: (old(self).spec_pieces().last().length + 1) as usize,
                    }),
                )
            } else {
                old(self).spec_pieces().push(
                    (Piece {
                        with_buffer: WithBuffer::Add,
                        start: old(self).add_len() as usize,
                        length: 1,
                    }),
                )
            }),
    {
        let ghost old_ps = self.pieces@;
        let n = self.pieces.len();
        proof {
            if n > 0 {
                assert(self.piece_in_bounds(old_ps[n - 1]));
                assert(self.add.len() == self.add@.len());
                self.lemma_view_at(old_ps, n - 1);
                assert(old_ps.skip(n as int) =~= Seq::<Piece>::empty());
                assert(self.slices_of(old_ps.skip(n as int)).flatten() =~= Seq::<T>::empty());
            }
            assert(old_ps.take(n as int) =~= old_ps);
            self.lemma_slices_len(old_ps);
        }
        let reuse = if n > 0 {
            let last = self.pieces[n - 1];
            last.with_buffer == WithBuffer::Add && last.start + last.length == self.add.len()
        } else {
            false
        };
        self.add.push(value);
        proof {
            assert(self.add@.take(old(self).add@.len() as int) =~= old(self).add@);
            old(self).lemma_slices_stable(*self, old_ps);
            if n > 0 {
                assert(old(self).pieces_in_bounds(old_ps.take(n - 1))) by {
                    assert(forall|i: int|
                        0 <= i < n - 1 ==> #[trigger] old_ps.take(n - 1)[i] == old_ps[i]);
                }
                old(self).lemma_slices_stable(*self, old_ps.take(n - 1));
            }
        }
        self.last_edit_idx = self.length;
        self.length = self.length + 1;
        if reuse {
            let last = self.pieces[n - 1];
            self.pieces.set(
                n - 1,
                Piece {
                    with_buffer: last.with_buffer,
                    start: last.start,
                    length: last.length + 1,
                },
            );
            self.reusable_edit = ReusableEdit::Insert(n - 1, false);
            proof {
                let ps = self.pieces@;
                assert(ps.take(n - 1) =~= old_ps.take(n - 1));
                assert(self.pieces_in_bounds(ps)) by {
                    assert(forall|i: int|
                        0 <= i < n - 1 ==> #[trigger] ps[i] == old_ps[i]);
                }
                self.lemma_view_at(ps, n - 1);
                assert(ps.skip(n as int) =~= Seq::<Piece>::empty());
                assert(self.slices_of(ps.skip(n as int)).flatten() =~= Seq::<T>::empty());
                assert(self.slices_of(ps.take(n - 1)) == self.slices_of(old_ps.take(n - 1)));
                assert(self.slices_of(old_ps.take(n - 1)) == old(self).slices_of(
                    old_ps.take(n - 1),
                ));
                assert(self.piece_seq(ps[n - 1]) =~= old(self).piece_seq(old_ps[n - 1]).push(
                    value,
                ));
                assert(self@ =~= old(self)@.push(value));
                lemma_pieces_len_sum_push(ps.take(n - 1), ps[n - 1]);
                assert(ps.take(n as int) =~= ps.take(n - 1).push(ps[n - 1]));
                assert(self.length == self@.len());
                assert(self.hint_ok());
            }
        } else {
            let piece_start = self.add.len() - 1;
            self.pieces.push(
                Piece { with_buffer: WithBuffer::Add, start: piece_start, length: 1 },
            );
            self.reusable_edit = ReusableEdit::Insert(self.pieces.len() - 1, true);
            proof {
                let ps = self.pieces@;
                assert(ps =~= old_ps.push(ps[n as int]));
                assert(self.slices_of(ps) =~= self.slices_of(old_ps).push(
                    self.piece_seq(ps[n as int]),
                ));
                self.slices_of(old_ps).lemma_flatten_push(self.piece_seq(ps[n as int]));
                assert(self.slices_of(old_ps) == old(self).slices_of(old_ps));
                assert(self.piece_seq(ps[n as int]) =~= seq![value]);
                assert(self@ =~= old(self)@.push(value));
                assert(self.pieces_in_bounds(ps));
                assert(ps.take(n as int) =~= old_ps);
                lemma_pieces_len_sum_push(ps.take(n as int), ps[n as int]);
                assert(ps.take(n + 1) =~= ps.take(n as int).push(ps[n as int]));
                assert(self.length == self@.len());
                assert(self.hint_ok());
            }
        }
    }

    proof fn lemma_flatten_pair(self, p1: Piece, p2: Piece)
        ensures
            self.slices_of(seq![p1, p2]).flatten() == self.piece_seq(p1) + self.piece_seq(p2),
    {
        let ss = self.slices_of(seq![p1, p2]);
        assert(ss.first() == self.piece_seq(p1));
        let ss2 = ss.drop_first();
        assert(ss2 =~= self.slices_of(seq![p2]));
        assert(ss2.len() == 1);
        ss2.lemma_flatten_singleton();
        assert(ss.flatten() == ss.first() + ss2.flatten());
    }

    proof fn lemma_flatten_triple(self, p1: Piece, p2: Piece, p3: Piece)
        ensures
            self.slices_of(seq![p1, p2, p3]).flatten() == self.piece_seq(p1) + self.piece_seq(p2)
                + self.piece_seq(p3),
    {
        let ss = self.slices_of(seq![p1, p2, p3]);
        assert(ss.first() == self.piece_seq(p1));
        let ss2 = ss.drop_first();
        assert(ss2 =~= self.slices_of(seq![p2, p3]));
        assert(ss2.first() == self.piece_seq(p2));
        let ss3 = ss2.drop_first();
        assert(ss3 =~= self.slices_of(seq![p3]));
        assert(ss3.len() == 1);
        ss3.lemma_flatten_singleton();
        assert(ss.flatten() == ss.first() + ss2.flatten());
        assert(ss2.flatten() == ss2.first() + ss3.flatten());
    }

    /// Insert `item` so that it becomes the element at logical index `at`.
    /// Typing forward from the previous edit extends one piece in place;
    /// any other position takes the slow path through the piece list.
    pub fn insert(&mut self, at: usize, item: T)
        requires
            old(self).wf(),
            at <= old(self)@.len(),
            old(self)@.len() < usize::MAX,
        ensures
            final(self).wf(),
            final(self)@ == old(self)@.insert(at as int, item),
            final(self).spec_last_edit() == at,
            final(self).buf_seq(WithBuffer::Add) == old(self).buf_seq(WithBuffer::Add).push(
                item,
            ),
            final(self).buf_seq(WithBuffer::Original) == old(self).buf_seq(
                WithBuffer::Original,
            ),
            old(self).insert_fast_path(at as int) ==> (old(self).spec_insert_hint()
                matches Some(k) && final(self).spec_pieces() == old(self).spec_pieces().update(
                k as int,
                (Piece {
                    with_buffer: old(self).spec_pieces()[k as int].with_buffer,
                    start: old(self).spec_pieces()[k as int].start,
                    length: (old(self).spec_pieces()[k as int].length + 1) as usize,
                }),
            ) && final(self).spec_insert_hint() == old(self).spec_insert_hint()),
            !old(self).insert_fast_path(at as int) && at == old(self)@.len() ==> final(self).spec_pieces() == old(self).spec_pieces().push(
                (Piece {
                    with_buffer: WithBuffer::Add,
                    start: old(self).add_len() as usize,
                    length: 1,
                }),
            ) && final(self).spec_insert_hint() == Some(
                old(self).spec_pieces().len() as usize,
            ),
            !old(self).insert_fast_path(at as int) && at < old(self)@.len() ==> exists|k: int|
                {
                    &&& 0 <= k < old(self).spec_pieces().len()
                    &&& old(self).prefix_len(k) <= at < old(self).prefix_len(k) + old(self).spec_pieces()[k].length
                    &&& final(self).spec_pieces() == spliced_insert(
                        old(self).spec_pieces(),
                        k,
                        at - old(self).prefix_len(k),
                        old(self).add_len() as int,
                    )
                    &&& final(self).spec_insert_hint() == Some(
                        (if at == old(self).prefix_len(k) {
                            k
                        } else {
                            k + 1
                        }) as usize,
                    )
                },
    {
        match self.reusable_edit {
            ReusableEdit::Insert(piece_idx, _) if at >= 1 && at - 1 == self.last_edit_idx => {
                let ghost old_ps = self.pieces@;
                let ghost k = piece_idx as int;
                proof {
                    assert(old(self).insert_hint_ok(k, at - 1));
                    assert(old(self).piece_in_bounds(old_ps[k]));
                    old(self).lemma_view_at(old_ps, k);
                    old(self).lemma_prefix_le_total(k);
                    old(self).lemma_prefix_le_total(k + 1);
                    assert(old_ps.take(k + 1) =~= old_ps.take(k).push(old_ps[k]));
                    lemma_pieces_len_sum_push(old_ps.take(k), old_ps[k]);
                    assert(self.add.len() == self.add@.len());
                }
                self.last_edit_idx = at;
                self.length = self.length + 1;
                self.add.push(item);
                proof {
                    assert(self.add@.take(old(self).add@.len() as int) =~= old(self).add@);
                    old(self).lemma_slices_stable(*self, old_ps);
                    assert(old(self).pieces_in_bounds(old_ps.take(k))) by {
                        assert(forall|i: int|
                            0 <= i < k ==> #[trigger] old_ps.take(k)[i] == old_ps[i]);
                    }
                    old(self).lemma_slices_stable(*self, old_ps.take(k));
                    assert(old(self).pieces_in_bounds(old_ps.skip(k + 1))) by {
                        assert(forall|i: int|
                            0 <= i < old_ps.len() - k - 1
                                ==> #[trigger] old_ps.skip(k + 1)[i] == old_ps[i + k + 1]);
                    }
                    old(self).lemma_slices_stable(*self, old_ps.skip(k + 1));
                }
                let piece = self.pieces[piece_idx];
                self.pieces.set(
                    piece_idx,
                    Piece {
                        with_buffer: piece.with_buffer,
                        start: piece.start,
                        length: piece.length + 1,
                    },
                );
                proof {
                    let ps = self.pieces@;
                    assert(ps.take(k) =~= old_ps.take(k));
                    assert(ps.skip(k + 1) =~= old_ps.skip(k + 1));
                    assert(self.pieces_in_bounds(ps)) by {
                        assert(forall|i: int|
                            0 <= i < ps.len() && i != k ==> #[trigger] ps[i] == old_ps[i]);
                    }
                    self.lemma_view_at(ps, k);
                    old(self).lemma_slices_stable(*self, old_ps.take(k));
                    old(self).lemma_slices_stable(*self, old_ps.skip(k + 1));
                    assert(self.slices_of(ps.take(k)) == self.slices_of(old_ps.take(k)));
                    assert(self.slices_of(ps.skip(k + 1)) == self.slices_of(old_ps.skip(k + 1)));
                    assert(self.piece_seq(ps[k]) =~= old(self).piece_seq(old_ps[k]).push(item));
                    assert(self@ =~= old(self)@.insert(at as int, item));
                    lemma_pieces_len_sum_push(ps.take(k), ps[k]);
                    assert(ps.take(k + 1) =~= ps.take(k).push(ps[k]));
                    assert(self.length == self@.len());
                    assert(self.hint_ok());
                    assert(old(self).insert_fast_path(at as int));
                    assert(old(self).spec_insert_hint() == Some(piece_idx));
                    assert(self.spec_pieces() == old(self).spec_pieces().update(
                        k,
                        (Piece {
                            with_buffer: old(self).spec_pieces()[k].with_buffer,
                            start: old(self).spec_pieces()[k].start,
                            length: (old(self).spec_pieces()[k].length + 1) as usize,
                        }),
                    ));
                }
            },
            _ => {
                self.raw_insert(at, item);
                let ghost mid = *self;
                self.last_edit_idx = at;
                self.length = self.length + 1;
                proof {
                    mid.lemma_view_parts(*self);
                    assert(self@ == old(self)@.insert(at as int, item));
                    assert(self.length == self@.len());
                    assert(self.hint_ok());
                    assert(self.pieces@ == mid.pieces@);
                    assert(self.add@ == mid.add@);
                    assert(self.original@ == mid.original@);
                    assert(!old(self).insert_fast_path(at as int));
                    if at < old(self)@.len() {
                        let k = choose|k: int|
                            0 <= k < old(self).pieces@.len() && old(self).prefix_len(k) <= at
                                < old(self).prefix_len(k) + old(self).pieces@[k].length
                                && mid.pieces@ == spliced_insert(
                                old(self).pieces@,
                                k,
                                at - old(self).prefix_len(k),
                                old(self).add@.len() as int,
                            );
                        assert(self.spec_pieces() == spliced_insert(
                            old(self).spec_pieces(),
                            k,
                            at - old(self).prefix_len(k),
                            old(self).add_len() as int,
                        ));
                    }
                }
            },
        }
    }

    /// Slow-path insert: locate `at` and splice the piece list around it.
    fn raw_insert(&mut self, at: usize, item: T)
        requires
            old(self).pieces_in_bounds(old(self).pieces@),
            forall|i: int|
                0 <= i < old(self).pieces@.len()
                    ==> (#[trigger] old(self).pieces@[i]).length >= 1,
            at <= old(self)@.len(),
            old(self)@.len() < usize::MAX,
        ensures
            final(self)@ == old(self)@.insert(at as int, item),
            final(self).pieces_in_bounds(final(self).pieces@),
            forall|i: int|
                0 <= i < final(self).pieces@.len()
                    ==> (#[trigger] final(self).pieces@[i]).length >= 1,
            final(self).length == old(self).length,
            final(self).last_edit_idx == old(self).last_edit_idx,
            final(self).add@ == old(self).add@.push(item),
            final(self).original@ == old(self).original@,
            at == old(self)@.len() ==> final(self).pieces@ == old(self).pieces@.push(
                (Piece {
                    with_buffer: WithBuffer::Add,
                    start: old(self).add@.len() as usize,
                    length: 1,
                }),
            ) && final(self).spec_insert_hint() == Some(
                old(self).pieces@.len() as usize,
            ),
            at < old(self)@.len() ==> exists|k: int|
                {
                    &&& 0 <= k < old(self).pieces@.len()
                    &&& old(self).prefix_len(k) <= at < old(self).prefix_len(k) + old(self).pieces@[k].length
                    &&& final(self).pieces@ == spliced_insert(
                        old(self).pieces@,
                        k,
                        at - old(self).prefix_len(k),
                        old(self).add@.len() as int,
                    )
                    &&& final(self).spec_insert_hint() == Some(
                        (if at == old(self).prefix_len(k) {
                            k
                        } else {
                            k + 1
                        }) as usize,
                    )
                },
            match final(self).reusable_edit {
                ReusableEdit::Insert(k, _) => final(self).insert_hint_ok(k as int, at as int),
                _ => false,
            },
    {
        let loc = self.index_to_piece_loc(at);
        let ghost old_ps = self.pieces@;
        proof {
            assert(self.add.len() == self.add@.len());
            assert(self.original.len() == self.original@.len());
        }
        let piece_start = self.add.len();
        self.add.push(item);
        proof {
            assert(self.add@.take(old(self).add@.len() as int) =~= old(self).add@);
            old(self).lemma_slices_stable(*self, old_ps);
        }
        match loc {
            Location::Head(piece_idx) => {
                let ghost k = piece_idx as int;
                proof {
                    old(self).lemma_view_split(old_ps, k);
                    assert(old(self).pieces_in_bounds(old_ps.take(k))) by {
                        assert(forall|i: int|
                            0 <= i < k ==> #[trigger] old_ps.take(k)[i] == old_ps[i]);
                    }
                    old(self).lemma_slices_stable(*self, old_ps.take(k));
                    assert(old(self).pieces_in_bounds(old_ps.skip(k))) by {
                        assert(forall|i: int|
                            0 <= i < old_ps.len() - k
                                ==> #[trigger] old_ps.skip(k)[i] == old_ps[i + k]);
                    }
                    old(self).lemma_slices_stable(*self, old_ps.skip(k));
                    old(self).lemma_slices_len(old_ps.take(k));
                }
                self.pieces.insert(
                    piece_idx,
                    Piece { with_buffer: WithBuffer::Add, start: piece_start, length: 1 },
                );
                self.reusable_edit = ReusableEdit::Insert(piece_idx, true);
                proof {
                    let ps = self.pieces@;
                    let ghost ins = ps[k];
                    assert(ps.take(k) =~= old_ps.take(k));
                    assert(ps.skip(k) =~= seq![ins] + old_ps.skip(k));
                    self.lemma_view_split(ps, k);
                    assert(self.slices_of(ps.skip(k)) =~= seq![self.piece_seq(ins)]
                        + self.slices_of(old_ps.skip(k)));
                    lemma_flatten_concat(
                        seq![self.piece_seq(ins)],
                        self.slices_of(old_ps.skip(k)),
                    );
                    seq![self.piece_seq(ins)].lemma_flatten_singleton();
                    assert(self.piece_seq(ins) =~= seq![item]);
                    old(self).lemma_slices_stable(*self, old_ps.take(k));
                    old(self).lemma_slices_stable(*self, old_ps.skip(k));
                    assert(self.slices_of(ps.take(k)) == self.slices_of(old_ps.take(k)));
                    assert(self@ =~= old(self)@.insert(at as int, item));
                    assert(self.pieces_in_bounds(ps)) by {
                        assert(forall|i: int|
                            0 <= i < ps.len() && i != k ==> self.piece_in_bounds(
                                #[trigger] ps[i],
                            ));
                    }
                    lemma_pieces_len_sum_push(ps.take(k), ins);
                    assert(ps.take(k + 1) =~= ps.take(k).push(ins));
                    assert(self.insert_hint_ok(k, at as int));
                    old(self).lemma_loc_parts(loc);
                    old(self).lemma_prefix_facts(k);
                    assert(at < old(self)@.len());
                    assert(ps == spliced_insert(old_ps, k, 0, old(self).add@.len() as int));
                    assert(old(self).prefix_len(k) <= at < old(self).prefix_len(k)
                        + old_ps[k].length);
                }
            },
            Location::Middle(piece_idx, delta) => {
                self.insert_split(piece_idx, delta, piece_start, Ghost(at as int));
                proof {
                    let ghost k = piece_idx as int;
                    old(self).lemma_loc_parts(loc);
                    old(self).lemma_prefix_facts(k);
                    assert(at - old(self).prefix_len(k) == delta);
                    assert(at < old(self)@.len());
                    assert(self.pieces@ =~= spliced_insert(
                        old_ps,
                        k,
                        delta as int,
                        old(self).add@.len() as int,
                    ));
                    assert(old(self).prefix_len(k) <= at < old(self).prefix_len(k)
                        + old_ps[k].length);
                }
            },
            Location::Tail(piece_idx, delta) => {
                self.insert_split(piece_idx, delta, piece_start, Ghost(at as int));
                proof {
                    let ghost k = piece_idx as int;
                    old(self).lemma_loc_parts(loc);
                    old(self).lemma_prefix_facts(k);
                    assert(at - old(self).prefix_len(k) == delta);
                    assert(at < old(self)@.len());
                    assert(self.pieces@ =~= spliced_insert(
                        old_ps,
                        k,
                        delta as int,
                        old(self).add@.len() as int,
                    ));
                    assert(old(self).prefix_len(k) <= at < old(self).prefix_len(k)
                        + old_ps[k].length);
                }
            },
            Location::Eof => {
                let ghost n = old_ps.len() as int;
                proof {
                    assert(old_ps.take(n) =~= old_ps);
                    old(self).lemma_slices_len(old_ps);
                }
                self.pieces.push(
                    Piece { with_buffer: WithBuffer::Add, start: piece_start, length: 1 },
                );
                self.reusable_edit = ReusableEdit::Insert(self.pieces.len() - 1, true);
                proof {
                    let ps = self.pieces@;
                    let ghost ins = ps[n];
                    assert(ps =~= old_ps.push(ins));
                    assert(self.slices_of(ps) =~= self.slices_of(old_ps).push(
                        self.piece_seq(ins),
                    ));
                    self.slices_of(old_ps).lemma_flatten_push(self.piece_seq(ins));
                    old(self).lemma_slices_stable(*self, old_ps);
                    assert(self.slices_of(old_ps) == old(self).slices_of(old_ps));
                    assert(self.piece_seq(ins) =~= seq![item]);
                    assert(self@ =~= old(self)@.insert(at as int, item));
                    assert(self.pieces_in_bounds(ps));
                    assert(ps.take(n) =~= old_ps);
                    lemma_pieces_len_sum_push(ps.take(n), ins);
                    assert(ps.take(n + 1) =~= ps.take(n).push(ins));
                    assert(self.insert_hint_ok(n, at as int));
                    assert(at == old(self)@.len());
                }
            },
        }
    }

    /// Insert in the middle of piece `piece_idx`: truncate it to `delta`
    /// elements, then splice in the one-element add piece and the split-off
    /// tail.  The element just pushed to the add array sits at `piece_start`.
    #[verifier::rlimit(100)]
    fn insert_split(
        &mut self,
        piece_idx: usize,
        delta: usize,
        piece_start: usize,
        Ghost(at): Ghost<int>,
    )
        requires
            old(self).pieces_in_bounds(old(self).pieces@),
            forall|i: int|
                0 <= i < old(self).pieces@.len()
                    ==> (#[trigger] old(self).pieces@[i]).length >= 1,
            piece_idx < old(self).pieces@.len(),
            old(self)@.len() < usize::MAX,
            0 < delta < old(self).pieces@[piece_idx as int].length,
            at == old(self).prefix_len(piece_idx as int) + delta,
            piece_start + 1 == old(self).add@.len(),
            old(self).piece_in_bounds(old(self).pieces@[piece_idx as int]),
        ensures
            final(self)@ == old(self)@.insert(at, old(self).add@.last()),
            final(self).pieces_in_bounds(final(self).pieces@),
            forall|i: int|
                0 <= i < final(self).pieces@.len()
                    ==> (#[trigger] final(self).pieces@[i]).length >= 1,
            final(self).length == old(self).length,
            final(self).last_edit_idx == old(self).last_edit_idx,
            final(self).add@ == old(self).add@,
            final(self).original@ == old(self).original@,
            final(self).pieces@ == old(self).pieces@.take(piece_idx as int) + seq![
                (Piece {
                    with_buffer: old(self).pieces@[piece_idx as int].with_buffer,
                    start: old(self).pieces@[piece_idx as int].start,
                    length: delta,
                }),
                (Piece { with_buffer: WithBuffer::Add, start: piece_start, length: 1 }),
                (Piece {
                    with_buffer: old(self).pieces@[piece_idx as int].with_buffer,
                    start: (old(self).pieces@[piece_idx as int].start + delta) as usize,
                    length: (old(self).pieces@[piece_idx as int].length - delta) as usize,
                }),
            ] + old(self).pieces@.skip(piece_idx as int + 1),
            final(self).spec_insert_hint() == Some((piece_idx + 1) as usize),
            match final(self).reusable_edit {
                ReusableEdit::Insert(k, _) => final(self).insert_hint_ok(k as int, at),
                _ => false,
            },
    {
        let ghost old_ps = self.pieces@;
        let ghost k = piece_idx as int;
        let origin = self.pieces[piece_idx];
        proof {
            assert(self.add.len() == self.add@.len());
            assert(self.original.len() == self.original@.len());
            self.lemma_view_at(old_ps, k);
            assert(old_ps.take(old_ps.len() as int) =~= old_ps);
            self.lemma_slices_len(old_ps);
            lemma_len_sum_at_least_count(old_ps);
        }
        self.pieces.set(
            piece_idx,
            Piece { with_buffer: origin.with_buffer, start: origin.start, length: delta },
        );
        self.pieces.insert(
            piece_idx + 1,
            Piece { with_buffer: WithBuffer::Add, start: piece_start, length: 1 },
        );
        self.pieces.insert(
            piece_idx + 2,
            Piece {
                with_buffer: origin.with_buffer,
                start: origin.start + delta,
                length: origin.length - delta,
            },
        );
        self.reusable_edit = ReusableEdit::Insert(piece_idx + 1, false);
        proof {
            let ps = self.pieces@;
            let ghost trunc = ps[k];
            let ghost ins = ps[k + 1];
            let ghost tail = ps[k + 2];
            assert(ps.take(k) =~= old_ps.take(k));
            assert(ps.skip(k) =~= seq![trunc, ins, tail] + old_ps.skip(k + 1));
            self.lemma_view_split(ps, k);
            assert(self.slices_of(ps.skip(k)) =~= self.slices_of(seq![trunc, ins, tail])
                + self.slices_of(old_ps.skip(k + 1)));
            lemma_flatten_concat(
                self.slices_of(seq![trunc, ins, tail]),
                self.slices_of(old_ps.skip(k + 1)),
            );
            self.lemma_flatten_triple(trunc, ins, tail);
            assert(self.slices_of(ps.take(k)) == self.slices_of(old_ps.take(k)));
            assert(old(self).pieces_in_bounds(old_ps.take(k))) by {
                assert(forall|i: int|
                    0 <= i < k ==> #[trigger] old_ps.take(k)[i] == old_ps[i]);
            }
            assert(old(self).pieces_in_bounds(old_ps.skip(k + 1))) by {
                assert(forall|i: int|
                    0 <= i < old_ps.len() - k - 1
                        ==> #[trigger] old_ps.skip(k + 1)[i] == old_ps[i + k + 1]);
            }
            assert(old(self).add@.take(old(self).add@.len() as int) =~= old(self).add@);
            old(self).lemma_slices_stable(*self, old_ps.take(k));
            old(self).lemma_slices_stable(*self, old_ps.skip(k + 1));
            assert(self.piece_seq(ins) =~= seq![old(self).add@.last()]);
            assert(self.piece_seq(trunc) + self.piece_seq(tail) =~= old(self).piece_seq(
                old_ps[k],
            ));
            assert(self@ =~= old(self)@.insert(at, old(self).add@.last()));
            assert(self.pieces_in_bounds(ps));
            lemma_pieces_len_sum_push(ps.take(k), trunc);
            assert(ps.take(k + 1) =~= ps.take(k).push(trunc));
            lemma_pieces_len_sum_push(ps.take(k + 1), ins);
            assert(ps.take(k + 2) =~= ps.take(k + 1).push(ins));
            assert(self.insert_hint_ok(k + 1, at));
            assert(ps =~= old_ps.take(k) + seq![trunc, ins, tail] + old_ps.skip(k + 1));
        }
    }

    /// Remove the element at logical index `at`.  Backspacing the edit
    /// just made, or continuing a run of removals, reuses the hint instead
    /// of rescanning.
    #[verifier::rlimit(100)]
    pub fn remove(&mut self, at: usize)
        requires
            old(self).wf(),
            at < old(self)@.len(),
        ensures
            final(self).wf(),
            final(self)@ == old(self)@.remove(at as int),
            final(self).spec_last_edit() == at,
            final(self).spec_insert_hint() is None,
            final(self).buf_seq(WithBuffer::Add) == old(self).buf_seq(WithBuffer::Add),
            final(self).buf_seq(WithBuffer::Original) == old(self).buf_seq(
                WithBuffer::Original,
            ),
            exists|k: int|
                {
                    &&& 0 <= k < old(self).spec_pieces().len()
                    &&& old(self).prefix_len(k) <= at < old(self).prefix_len(k) + old(
                        self,
                    ).spec_pieces()[k].length
                    &&& final(self).spec_pieces() == spliced_remove(
                        old(self).spec_pieces(),
                        k,
                        at - old(self).prefix_len(k),
                    )
                },
    {
        let loc = match self.reusable_edit {
            ReusableEdit::Insert(piece_idx, head) if head && at == self.last_edit_idx => {
                proof {
                    assert(self.insert_hint_ok(piece_idx as int, self.last_edit_idx as int));
                }
                let piece = self.pieces[piece_idx];
                if piece.length == 1 {
                    Location::Head(piece_idx)
                } else {
                    Location::Tail(piece_idx, piece.length - 1)
                }
            },
            ReusableEdit::Remove(hint_loc) if at + 1 == self.last_edit_idx => hint_loc,
            _ => self.index_to_piece_loc(at),
        };
        let ghost gk: int = match loc {
            Location::Head(k) => k as int,
            Location::Tail(k, _) => k as int,
            Location::Middle(k, _) => k as int,
            Location::Eof => 0,
        };
        let ghost gd: int = at - self.prefix_len(gk);
        proof {
            assert(self.loc_ok(loc));
            assert(self.loc_index(loc) == at);
            self.lemma_loc_parts(loc);
            assert(self.pieces@[gk].length >= 1);
            assert(self.prefix_len(gk) <= at < self.prefix_len(gk) + self.pieces@[gk].length);
        }
        let piece_to_remove = self.raw_remove(loc);
        if let Some(piece_idx) = piece_to_remove {
            let ghost mid = *self;
            let ghost ps1 = self.pieces@;
            proof {
                mid.lemma_view_at(ps1, piece_idx as int);
                assert(mid.piece_seq(ps1[piece_idx as int]) =~= Seq::<T>::empty());
                mid.lemma_prefix_le_total(piece_idx as int);
            }
            self.pieces.remove(piece_idx);
            proof {
                let ps2 = self.pieces@;
                assert(ps2 =~= ps1.take(piece_idx as int) + ps1.skip(piece_idx + 1));
                self.lemma_view_split(ps2, piece_idx as int);
                assert(ps2.take(piece_idx as int) =~= ps1.take(piece_idx as int));
                assert(ps2.skip(piece_idx as int) =~= ps1.skip(piece_idx + 1));
                assert(mid.add@.take(mid.add@.len() as int) =~= mid.add@);
                assert(mid.pieces_in_bounds(ps1.take(piece_idx as int))) by {
                    assert(forall|i: int|
                        0 <= i < piece_idx ==> #[trigger] ps1.take(piece_idx as int)[i]
                            == ps1[i]);
                }
                assert(mid.pieces_in_bounds(ps1.skip(piece_idx + 1))) by {
                    assert(forall|i: int|
                        0 <= i < ps1.len() - piece_idx - 1
                            ==> #[trigger] ps1.skip(piece_idx + 1)[i] == ps1[i + piece_idx
                                + 1]);
                }
                mid.lemma_slices_stable(*self, ps1.take(piece_idx as int));
                mid.lemma_slices_stable(*self, ps1.skip(piece_idx + 1));
                assert(self@ =~= mid@);
            }
            let ghost before_hint = *self;
            if piece_idx > 0 {
                let idx2 = piece_idx - 1;
                let len2 = self.pieces[idx2].length;
                let loc2 = if len2 == 1 {
                    Location::Head(idx2)
                } else {
                    Location::Tail(idx2, len2 - 1)
                };
                self.reusable_edit = ReusableEdit::Remove(loc2);
                proof {
                    before_hint.lemma_view_parts(*self);
                    lemma_pieces_len_sum_push(ps1.take(piece_idx - 1), ps1[piece_idx - 1]);
                    assert(ps1.take(piece_idx as int) =~= ps1.take(piece_idx - 1).push(
                        ps1[piece_idx - 1],
                    ));
                    let ps2 = self.pieces@;
                    assert(ps2.take(idx2 as int) =~= ps1.take(idx2 as int));
                    lemma_pieces_len_sum_push(ps2.take(idx2 as int), ps2[idx2 as int]);
                    assert(ps2.take(idx2 + 1) =~= ps2.take(idx2 as int).push(ps2[idx2 as int]));
                    assert(self.remove_hint_ok(loc2, at as int));
                }
            } else {
                self.reusable_edit = ReusableEdit::Idle;
                proof {
                    before_hint.lemma_view_parts(*self);
                }
            }
        }
        let ghost mid2 = *self;
        self.last_edit_idx = at;
        self.length = self.length - 1;
        proof {
            mid2.lemma_view_parts(*self);
            assert(self@ == old(self)@.remove(at as int));
            assert(self.length == self@.len());
            assert(self.hint_ok());
            assert(self.pieces@ == mid2.pieces@);
            assert(self.add@ == old(self).add@);
            assert(self.original@ == old(self).original@);
            assert(self.spec_pieces() =~= spliced_remove(old(self).spec_pieces(), gk, gd));
        }
    }

    /// Remove the element that `location` names, leaving the piece list
    /// in order.  Returns the index of a piece that became empty and must
    /// be dropped by the caller.
    #[verifier::rlimit(80)]
    fn raw_remove(&mut self, location: Location) -> (removed: Option<usize>)
        requires
            old(self).pieces_in_bounds(old(self).pieces@),
            forall|i: int|
                0 <= i < old(self).pieces@.len()
                    ==> (#[trigger] old(self).pieces@[i]).length >= 1,
            old(self).loc_ok(location),
        ensures
            final(self)@ == old(self)@.remove(old(self).loc_index(location)),
            final(self).pieces_in_bounds(final(self).pieces@),
            final(self).add@ == old(self).add@,
            final(self).original@ == old(self).original@,
            final(self).length == old(self).length,
            final(self).last_edit_idx == old(self).last_edit_idx,
            final(self).pieces@ == (match location {
                Location::Head(k) => old(self).pieces@.update(
                    k as int,
                    (Piece {
                        with_buffer: old(self).pieces@[k as int].with_buffer,
                        start: (old(self).pieces@[k as int].start + 1) as usize,
                        length: (old(self).pieces@[k as int].length - 1) as usize,
                    }),
                ),
                Location::Tail(k, _d) => old(self).pieces@.update(
                    k as int,
                    (Piece {
                        with_buffer: old(self).pieces@[k as int].with_buffer,
                        start: old(self).pieces@[k as int].start,
                        length: (old(self).pieces@[k as int].length - 1) as usize,
                    }),
                ),
                Location::Middle(k, d) => (if d + 1 < old(self).pieces@[k as int].length {
                    old(self).pieces@.take(k as int) + seq![
                        (Piece {
                            with_buffer: old(self).pieces@[k as int].with_buffer,
                            start: old(self).pieces@[k as int].start,
                            length: d,
                        }),
                        (Piece {
                            with_buffer: old(self).pieces@[k as int].with_buffer,
                            start: (old(self).pieces@[k as int].start + d + 1) as usize,
                            length: (old(self).pieces@[k as int].length - d - 1) as usize,
                        }),
                    ] + old(self).pieces@.skip(k as int + 1)
                } else {
                    old(self).pieces@.update(
                        k as int,
                        (Piece {
                            with_buffer: old(self).pieces@[k as int].with_buffer,
                            start: old(self).pieces@[k as int].start,
                            length: d,
                        }),
                    )
                }),
                Location::Eof => old(self).pieces@,
            }),
            removed == (match location {
                Location::Head(k) => (if old(self).pieces@[k as int].length == 1 {
                    Some(k)
                } else {
                    Option::<usize>::None
                }),
                _ => Option::<usize>::None,
            }),
            match removed {
                Option::Some(pi) => {
                    &&& (pi as int) < final(self).pieces@.len()
                    &&& final(self).pieces@[pi as int].length == 0
                    &&& forall|i: int|
                        0 <= i < final(self).pieces@.len() && i != pi as int
                            ==> (#[trigger] final(self).pieces@[i]).length >= 1
                    &&& final(self).prefix_len(pi as int) == old(self).loc_index(location)
                    &&& final(self).reusable_edit is Idle
                },
                Option::None => {
                    &&& forall|i: int|
                        0 <= i < final(self).pieces@.len()
                            ==> (#[trigger] final(self).pieces@[i]).length >= 1
                    &&& match final(self).reusable_edit {
                        ReusableEdit::Remove(l2) => final(self).remove_hint_ok(
                            l2,
                            old(self).loc_index(location),
                        ),
                        ReusableEdit::Idle => true,
                        ReusableEdit::Insert(_, _) => false,
                    }
                },
            },
    {
        let ghost ps0 = self.pieces@;
        proof {
            assert(self.add.len() == self.add@.len());
            assert(self.original.len() == self.original@.len());
        }
        match location {
            Location::Head(piece_idx) => {
                let ghost k = piece_idx as int;
                let piece = self.pieces[piece_idx];
                proof {
                    assert(self.piece_in_bounds(ps0[k]));
                    self.lemma_view_at(ps0, k);
                }
                self.pieces.set(
                    piece_idx,
                    Piece {
                        with_buffer: piece.with_buffer,
                        start: piece.start + 1,
                        length: piece.length - 1,
                    },
                );
                self.reusable_edit = ReusableEdit::Idle;
                proof {
                    let ps = self.pieces@;
                    assert(ps.take(k) =~= ps0.take(k));
                    assert(ps.skip(k + 1) =~= ps0.skip(k + 1));
                    assert(old(self).add@.take(old(self).add@.len() as int) =~= old(self).add@);
                    assert(old(self).pieces_in_bounds(ps0.take(k))) by {
                        assert(forall|i: int|
                            0 <= i < k ==> #[trigger] ps0.take(k)[i] == ps0[i]);
                    }
                    assert(old(self).pieces_in_bounds(ps0.skip(k + 1))) by {
                        assert(forall|i: int|
                            0 <= i < ps0.len() - k - 1
                                ==> #[trigger] ps0.skip(k + 1)[i] == ps0[i + k + 1]);
                    }
                    old(self).lemma_slices_stable(*self, ps0.take(k));
                    old(self).lemma_slices_stable(*self, ps0.skip(k + 1));
                    assert(self.pieces_in_bounds(ps));
                    self.lemma_view_at(ps, k);
                    assert(self.slices_of(ps.take(k)) == self.slices_of(ps0.take(k)));
                    assert(self.slices_of(ps.skip(k + 1)) == self.slices_of(ps0.skip(k + 1)));
                    assert(self.piece_seq(ps[k]) =~= old(self).piece_seq(
                        ps0[k],
                    ).drop_first());
                    assert(self@ =~= old(self)@.remove(old(self).loc_index(location)));
                }
                if piece.length - 1 == 0 {
                    Some(piece_idx)
                } else {
                    None
                }
            },
            Location::Tail(piece_idx, delta) => {
                let ghost k = piece_idx as int;
                let piece = self.pieces[piece_idx];
                proof {
                    assert(self.piece_in_bounds(ps0[k]));
                    self.lemma_view_at(ps0, k);
                }
                self.pieces.set(
                    piece_idx,
                    Piece {
                        with_buffer: piece.with_buffer,
                        start: piece.start,
                        length: piece.length - 1,
                    },
                );
                let loc2 = if delta - 1 == 0 {
                    Location::Head(piece_idx)
                } else {
                    Location::Tail(piece_idx, delta - 1)
                };
                self.reusable_edit = ReusableEdit::Remove(loc2);
                proof {
                    let ps = self.pieces@;
                    assert(ps.take(k) =~= ps0.take(k));
                    assert(ps.skip(k + 1) =~= ps0.skip(k + 1));
                    assert(old(self).add@.take(old(self).add@.len() as int) =~= old(self).add@);
                    assert(old(self).pieces_in_bounds(ps0.take(k))) by {
                        assert(forall|i: int|
                            0 <= i < k ==> #[trigger] ps0.take(k)[i] == ps0[i]);
                    }
                    assert(old(self).pieces_in_bounds(ps0.skip(k + 1))) by {
                        assert(forall|i: int|
                            0 <= i < ps0.len() - k - 1
                                ==> #[trigger] ps0.skip(k + 1)[i] == ps0[i + k + 1]);
                    }
                    old(self).lemma_slices_stable(*self, ps0.take(k));
                    old(self).lemma_slices_stable(*self, ps0.skip(k + 1));
                    assert(self.pieces_in_bounds(ps));
                    self.lemma_view_at(ps, k);
                    assert(self.slices_of(ps.take(k)) == self.slices_of(ps0.take(k)));
                    assert(self.slices_of(ps.skip(k + 1)) == self.slices_of(ps0.skip(k + 1)));
                    assert(self.piece_seq(ps[k]) =~= old(self).piece_seq(ps0[k]).drop_last());
                    assert(self@ =~= old(self)@.remove(old(self).loc_index(location)));
                    assert(self.remove_hint_ok(loc2, old(self).loc_index(location)));
                }
                None
            },
            Location::Middle(piece_idx, delta) => {
                let removed = self.remove_split(piece_idx, delta);
                removed
            },
            Location::Eof => None,
        }
    }

    /// Remove the element at offset `delta` of piece `piece_idx`: truncate
    /// the piece to `delta` elements and splice in the split-off tail, if
    /// one remains.
    #[verifier::rlimit(60)]
    fn remove_split(&mut self, piece_idx: usize, delta: usize) -> (removed: Option<usize>)
        requires
            old(self).pieces_in_bounds(old(self).pieces@),
            forall|i: int|
                0 <= i < old(self).pieces@.len()
                    ==> (#[trigger] old(self).pieces@[i]).length >= 1,
            piece_idx < old(self).pieces@.len(),
            0 < delta < old(self).pieces@[piece_idx as int].length,
        ensures
            final(self)@ == old(self)@.remove(
                old(self).prefix_len(piece_idx as int) + delta,
            ),
            final(self).pieces_in_bounds(final(self).pieces@),
            final(self).add@ == old(self).add@,
            final(self).original@ == old(self).original@,
            final(self).length == old(self).length,
            final(self).last_edit_idx == old(self).last_edit_idx,
            removed is None,
            final(self).pieces@ == (if delta + 1 < old(self).pieces@[piece_idx as int].length {
                old(self).pieces@.take(piece_idx as int) + seq![
                    (Piece {
                        with_buffer: old(self).pieces@[piece_idx as int].with_buffer,
                        start: old(self).pieces@[piece_idx as int].start,
                        length: delta,
                    }),
                    (Piece {
                        with_buffer: old(self).pieces@[piece_idx as int].with_buffer,
                        start: (old(self).pieces@[piece_idx as int].start + delta + 1) as usize,
                        length: (old(self).pieces@[piece_idx as int].length - delta
                            - 1) as usize,
                    }),
                ] + old(self).pieces@.skip(piece_idx as int + 1)
            } else {
                old(self).pieces@.update(
                    piece_idx as int,
                    (Piece {
                        with_buffer: old(self).pieces@[piece_idx as int].with_buffer,
                        start: old(self).pieces@[piece_idx as int].start,
                        length: delta,
                    }),
                )
            }),
            forall|i: int|
                0 <= i < final(self).pieces@.len()
                    ==> (#[trigger] final(self).pieces@[i]).length >= 1,
            match final(self).reusable_edit {
                ReusableEdit::Remove(l2) => final(self).remove_hint_ok(
                    l2,
                    old(self).prefix_len(piece_idx as int) + delta,
                ),
                ReusableEdit::Idle => true,
                ReusableEdit::Insert(_, _) => false,
            },
    {
        let ghost ps0 = self.pieces@;
        let ghost k = piece_idx as int;
        let ghost at = old(self).prefix_len(k) + delta;
        let origin = self.pieces[piece_idx];
        proof {
            assert(self.add.len() == self.add@.len());
            assert(self.original.len() == self.original@.len());
            assert(self.pieces.len() == self.pieces@.len());
            assert(self.piece_in_bounds(ps0[k]));
            self.lemma_view_at(ps0, k);
        }
        self.pieces.set(
            piece_idx,
            Piece { with_buffer: origin.with_buffer, start: origin.start, length: delta },
        );
        let tail_start = delta + 1;
        if origin.length - tail_start > 0 {
            self.pieces.insert(
                piece_idx + 1,
                Piece {
                    with_buffer: origin.with_buffer,
                    start: origin.start + tail_start,
                    length: origin.length - tail_start,
                },
            );
        }
        let loc2 = if delta - 1 == 0 {
            Location::Head(piece_idx)
        } else {
            Location::Middle(piece_idx, delta - 1)
        };
        self.reusable_edit = ReusableEdit::Remove(loc2);
        proof {
            let ps = self.pieces@;
            let ghost trunc = ps[k];
            assert(old(self).add@.take(old(self).add@.len() as int) =~= old(self).add@);
            assert(old(self).pieces_in_bounds(ps0.take(k))) by {
                assert(forall|i: int| 0 <= i < k ==> #[trigger] ps0.take(k)[i] == ps0[i]);
            }
            assert(old(self).pieces_in_bounds(ps0.skip(k + 1))) by {
                assert(forall|i: int|
                    0 <= i < ps0.len() - k - 1
                        ==> #[trigger] ps0.skip(k + 1)[i] == ps0[i + k + 1]);
            }
            old(self).lemma_slices_stable(*self, ps0.take(k));
            old(self).lemma_slices_stable(*self, ps0.skip(k + 1));
            if origin.length > delta + 1 {
                let ghost tail = ps[k + 1];
                assert(ps.take(k) =~= ps0.take(k));
                assert(ps.skip(k) =~= seq![trunc, tail] + ps0.skip(k + 1));
                self.lemma_view_split(ps, k);
                assert(self.slices_of(ps.skip(k)) =~= self.slices_of(seq![trunc, tail])
                    + self.slices_of(ps0.skip(k + 1)));
                lemma_flatten_concat(
                    self.slices_of(seq![trunc, tail]),
                    self.slices_of(ps0.skip(k + 1)),
                );
                self.lemma_flatten_pair(trunc, tail);
                assert(self.slices_of(ps.take(k)) == self.slices_of(ps0.take(k)));
                assert(self.piece_seq(trunc) + self.piece_seq(tail) =~= old(self).piece_seq(
                    ps0[k],
                ).remove(delta as int));
                assert(self@ =~= old(self)@.remove(at));
                assert(self.pieces_in_bounds(ps));
            } else {
                assert(ps.take(k) =~= ps0.take(k));
                assert(ps.skip(k + 1) =~= ps0.skip(k + 1));
                assert(self.pieces_in_bounds(ps));
                self.lemma_view_at(ps, k);
                assert(self.slices_of(ps.take(k)) == self.slices_of(ps0.take(k)));
                assert(self.slices_of(ps.skip(k + 1)) == self.slices_of(ps0.skip(k + 1)));
                assert(self.piece_seq(ps[k]) =~= old(self).piece_seq(ps0[k]).drop_last());
                assert(self@ =~= old(self)@.remove(at));
            }
            assert(self.remove_hint_ok(loc2, at));
        }
        None
    }

    /// Read the element at a logical index.  O(pieces): use a cursor for
    /// sequential access.
    pub fn index(&self, idx: usize) -> (r: &T)
        requires
            self.wf(),
            idx < self@.len(),
        ensures
            *r == self@[idx as int],
    {
        let loc = self.index_to_piece_loc(idx);
        let (piece_idx, norm_idx) = match loc {
            Location::Head(k) => (k, 0),
            Location::Middle(k, d) => (k, d),
            Location::Tail(k, d) => (k, d),
            Location::Eof => (0, 0),
        };
        proof {
            self.lemma_view_at(self.pieces@, piece_idx as int);
        }
        let piece = self.pieces[piece_idx];
        proof {
            assert(self.piece_in_bounds(self.pieces@[piece_idx as int]));
            assert(norm_idx < piece.length);
            assert(self.original.len() == self.original@.len());
            assert(self.add.len() == self.add@.len());
        }
        match piece.with_buffer {
            WithBuffer::Original => &self.original[piece.start + norm_idx],
            WithBuffer::Add => &self.add[piece.start + norm_idx],
        }
    }
}

} // verus!
