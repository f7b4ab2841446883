//! Cursors over a piece-table buffer.
//!
//! A cursor keeps only a piece index and an offset; the buffer is handed to
//! each `next` call, which the contracts tie to the cursor's position.  A
//! forward cursor at position `p` yields `buf@[p]`; a reverse cursor at
//! position `p` has the elements `[0, p)` still to yield, last first.

use vstd::prelude::*;

use crate::buffer::{Location, PtBuffer};

verus! {

/// Forward cursor: the next element is at logical position `pos`.
pub struct Iter {
    pub(crate) piece_idx: usize,
    pub(crate) offset: usize,
}

/// Reverse cursor: the elements `[0, pos)` remain, yielded from the back.
pub struct RevIter {
    pub(crate) piece_idx: usize,
    pub(crate) offset: usize,
}

/// Forward cursor over the slice `[cur, end)`.
pub struct Range {
    pub(crate) iter: Iter,
    pub(crate) idx: usize,
    pub(crate) to: usize,
}

/// Reverse cursor over the slice `[start, end)`: it yields that slice's
/// elements in reverse, from index `end - 1` down to `start`.
pub struct RevRange {
    pub(crate) iter: RevIter,
    pub(crate) from: usize,
    pub(crate) idx: usize,
    pub(crate) to: usize,
}

impl Iter {
    /// The logical index of the next element to yield.
    pub closed spec fn pos<T>(self, buf: PtBuffer<T>) -> int {
        buf.prefix_len(self.piece_idx as int) + self.offset
    }

    /// The cursor points into the piece list of `buf`.
    pub closed spec fn wf<T>(self, buf: PtBuffer<T>) -> bool {
        &&& self.piece_idx <= buf.pieces@.len()
        &&& (self.piece_idx < buf.pieces@.len() ==> self.offset <= buf.pieces@[
            self.piece_idx as int
        ].length)
        &&& (self.piece_idx == buf.pieces@.len() ==> self.offset == 0)
    }

    /// Yield the element at the cursor's position and advance, or `None`
    /// once the whole sequence has been seen.
    pub fn next<'a, T>(&mut self, buf: &'a PtBuffer<T>) -> (r: Option<&'a T>)
        requires
            buf.wf(),
            old(self).wf(*buf),
        ensures
            final(self).wf(*buf),
            old(self).pos(*buf) < buf@.len() ==> match r {
                Some(v) => *v == buf@[old(self).pos(*buf)] && final(self).pos(*buf) == old(self).pos(*buf) + 1,
                None => false,
            },
            old(self).pos(*buf) >= buf@.len() ==> r is None && final(self).pos(*buf) == old(self).pos(*buf),
    {
        proof {
            buf.lemma_wf_basics();
            buf.lemma_prefix_facts(self.piece_idx as int);
        }
        let n = buf.pieces.len();
        if self.piece_idx >= n {
            return None;
        }
        let piece = buf.pieces[self.piece_idx];
        if self.offset < piece.length {
            let r = buf.element_at(self.piece_idx, self.offset);
            self.offset = self.offset + 1;
            return Some(r);
        }
        self.piece_idx = self.piece_idx + 1;
        self.offset = 0;
        proof {
            buf.lemma_prefix_facts(self.piece_idx as int);
        }
        if self.piece_idx >= n {
            return None;
        }
        proof {
            assert(buf.pieces@[self.piece_idx as int].length >= 1);
        }
        let r = buf.element_at(self.piece_idx, 0);
        self.offset = 1;
        Some(r)
    }
}

impl RevIter {
    /// One past the logical index of the next element to yield.
    pub closed spec fn pos<T>(self, buf: PtBuffer<T>) -> int {
        buf.prefix_len(self.piece_idx as int) + self.offset
    }

    pub closed spec fn wf<T>(self, buf: PtBuffer<T>) -> bool {
        &&& self.piece_idx <= buf.pieces@.len()
        &&& (self.piece_idx < buf.pieces@.len() ==> self.offset <= buf.pieces@[
            self.piece_idx as int
        ].length)
        &&& (self.piece_idx == buf.pieces@.len() ==> self.offset == 0)
    }

    /// Yield the element just before the cursor's position and step back,
    /// or `None` once the front has been reached.
    pub fn next<'a, T>(&mut self, buf: &'a PtBuffer<T>) -> (r: Option<&'a T>)
        requires
            buf.wf(),
            old(self).wf(*buf),
        ensures
            final(self).wf(*buf),
            old(self).pos(*buf) > 0 ==> match r {
                Some(v) => *v == buf@[old(self).pos(*buf) - 1] && final(self).pos(*buf) == old(self).pos(*buf) - 1,
                None => false,
            },
            old(self).pos(*buf) == 0 ==> r is None && final(self).pos(*buf) == 0,
    {
        proof {
            buf.lemma_wf_basics();
            buf.lemma_prefix_facts(self.piece_idx as int);
        }
        if self.offset == 0 {
            if self.piece_idx == 0 {
                return None;
            }
            self.piece_idx = self.piece_idx - 1;
            proof {
                buf.lemma_prefix_facts(self.piece_idx as int);
            }
            self.offset = buf.pieces[self.piece_idx].length;
        }
        self.offset = self.offset - 1;
        let r = buf.element_at(self.piece_idx, self.offset);
        Some(r)
    }
}

impl<T> PtBuffer<T> {
    /// A forward cursor over the whole sequence.
    pub fn iter(&self) -> (it: Iter)
        requires
            self.wf(),
        ensures
            it.wf(*self),
            it.pos(*self) == 0,
    {
        proof {
            self.lemma_wf_basics();
            self.lemma_prefix_facts(0);
        }
        Iter { piece_idx: 0, offset: 0 }
    }

    /// A reverse cursor over the whole sequence: it yields every element,
    /// last first.
    pub fn rev_iter(&self) -> (it: RevIter)
        requires
            self.wf(),
        ensures
            it.wf(*self),
            it.pos(*self) == self@.len(),
    {
        proof {
            self.lemma_wf_basics();
            self.lemma_prefix_facts(self.pieces@.len() as int);
        }
        RevIter { piece_idx: self.pieces.len(), offset: 0 }
    }

    /// A forward cursor positioned at logical index `from`.
    fn make_iter(&self, from: usize) -> (it: Iter)
        requires
            self.wf(),
            from <= self@.len(),
        ensures
            it.wf(*self),
            it.pos(*self) == from,
    {
        proof {
            self.lemma_wf_basics();
        }
        let loc = self.index_to_piece_loc(from);
        proof {
            if from < self@.len() {
                self.lemma_loc_parts(loc);
            } else {
                self.lemma_prefix_facts(self.pieces@.len() as int);
            }
            self.lemma_prefix_facts(0);
        }
        match loc {
            Location::Head(k) => Iter { piece_idx: k, offset: 0 },
            Location::Middle(k, d) => Iter { piece_idx: k, offset: d },
            Location::Tail(k, d) => Iter { piece_idx: k, offset: d },
            Location::Eof => Iter { piece_idx: self.pieces.len(), offset: 0 },
        }
    }

    /// A reverse cursor positioned so that the elements `[0, upto)` remain.
    fn make_rev_iter(&self, upto: usize) -> (it: RevIter)
        requires
            self.wf(),
            upto <= self@.len(),
        ensures
            it.wf(*self),
            it.pos(*self) == upto,
    {
        proof {
            self.lemma_wf_basics();
        }
        let loc = self.index_to_piece_loc(upto);
        proof {
            if upto < self@.len() {
                self.lemma_loc_parts(loc);
            } else {
                self.lemma_prefix_facts(self.pieces@.len() as int);
            }
            self.lemma_prefix_facts(0);
        }
        match loc {
            Location::Head(k) => RevIter { piece_idx: k, offset: 0 },
            Location::Middle(k, d) => RevIter { piece_idx: k, offset: d },
            Location::Tail(k, d) => RevIter { piece_idx: k, offset: d },
            Location::Eof => RevIter { piece_idx: self.pieces.len(), offset: 0 },
        }
    }

    /// A cursor over the half-open slice `[from, to)`.
    pub fn range(&self, from: usize, to: usize) -> (r: Range)
        requires
            self.wf(),
            from <= to <= self@.len(),
        ensures
            r.wf(*self),
            r.cur() == from,
            r.end() == to,
    {
        let iter = self.make_iter(from);
        Range { iter, idx: from, to }
    }

    /// A cursor that walks the slice `[from, to)` backwards: it yields
    /// the elements at indices `to - 1` down to `from` — the reverse of
    /// what `range(from, to)` yields.
    pub fn rev_range(&self, from: usize, to: usize) -> (r: RevRange)
        requires
            self.wf(),
            from <= to <= self@.len(),
        ensures
            r.wf(*self),
            r.start() == from,
            r.cur() == from,
            r.end() == to,
    {
        let iter = self.make_rev_iter(to);
        RevRange { iter, from, idx: from, to }
    }
}

/// What `rev_range(lo, hi)` walks is exactly the reverse of what
/// `range(lo, hi)` walks: its `i`-th yield, the element at index
/// `hi - 1 - i`, is the `i`-th element of the reversed slice `[lo, hi)`.
pub proof fn lemma_rev_range_mirrors_range<T>(s: Seq<T>, lo: int, hi: int)
    requires
        0 <= lo <= hi <= s.len(),
    ensures
        s.subrange(lo, hi).reverse() == Seq::new(
            (hi - lo) as nat,
            |i: int| s[hi - 1 - i],
        ),
{
    assert(s.subrange(lo, hi).reverse() =~= Seq::new((hi - lo) as nat, |i: int| s[hi - 1 - i]));
}

impl Range {
    /// The absolute index of the next element.
    pub closed spec fn cur(self) -> int {
        self.idx as int
    }

    /// One past the absolute index of the last element.
    pub closed spec fn end(self) -> int {
        self.to as int
    }

    pub closed spec fn wf<T>(self, buf: PtBuffer<T>) -> bool {
        &&& self.iter.wf(buf)
        &&& self.iter.pos(buf) == self.idx
        &&& self.idx <= self.to <= buf@.len()
    }

    /// Yield the element at the cursor's index, or `None` once `end` is
    /// reached.
    pub fn next<'a, T>(&mut self, buf: &'a PtBuffer<T>) -> (r: Option<&'a T>)
        requires
            buf.wf(),
            old(self).wf(*buf),
        ensures
            final(self).wf(*buf),
            final(self).end() == old(self).end(),
            old(self).cur() < old(self).end() ==> match r {
                Some(v) => *v == buf@[old(self).cur()] && final(self).cur() == old(self).cur()
                    + 1,
                None => false,
            },
            old(self).cur() >= old(self).end() ==> r is None && final(self).cur() == old(self).cur(),
    {
        if self.idx >= self.to {
            None
        } else {
            self.idx = self.idx + 1;
            self.iter.next(buf)
        }
    }
}

impl RevRange {
    /// The first index of the slice being walked.
    pub closed spec fn start(self) -> int {
        self.from as int
    }

    /// `start` plus how many elements have been yielded so far.
    pub closed spec fn cur(self) -> int {
        self.idx as int
    }

    /// One past the last index of the slice being walked.
    pub closed spec fn end(self) -> int {
        self.to as int
    }

    pub closed spec fn wf<T>(self, buf: PtBuffer<T>) -> bool {
        &&& self.iter.wf(buf)
        &&& self.from <= self.idx <= self.to <= buf@.len()
        &&& self.iter.pos(buf) == self.to - (self.idx - self.from)
    }

    /// Yield the next element walking backwards: the element at index
    /// `end - 1 - (cur - start)`, so that collecting gives the reverse of
    /// the slice `[start, end)`.
    pub fn next<'a, T>(&mut self, buf: &'a PtBuffer<T>) -> (r: Option<&'a T>)
        requires
            buf.wf(),
            old(self).wf(*buf),
        ensures
            final(self).wf(*buf),
            final(self).start() == old(self).start(),
            final(self).end() == old(self).end(),
            old(self).cur() < old(self).end() ==> match r {
                Some(v) => *v == buf@[old(self).end() - 1 - (old(self).cur() - old(self).start())] && final(self).cur() == old(self).cur() + 1,
                None => false,
            },
            old(self).cur() >= old(self).end() ==> r is None && final(self).cur() == old(self).cur(),
    {
        if self.idx >= self.to {
            None
        } else {
            self.idx = self.idx + 1;
            self.iter.next(buf)
        }
    }
}

} // verus!
