//! Highlight overlay: `(start, end, tag)` ranges keyed by absolute index.
//!
//! The highlight engine reports a stream of events; `rebuild` pairs each
//! range end with the most recent pending start and the most recent source
//! range, and `get` answers point queries with the first matching range.

use vstd::prelude::*;

verus! {

/// One event from the highlight engine: a source range, the opening of a
/// highlight with a tag, or the closing of the most recent highlight.
#[derive(Debug, Copy, Clone)]
pub enum HlEvent {
    Source(usize, usize),
    Start(usize),
    End,
}

/// An append-only list of `(start, end, tag)` ranges.
#[derive(Debug)]
pub struct HlQueue {
    inner: Vec<(usize, usize, usize)>,
}

impl View for HlQueue {
    type V = Seq<(usize, usize, usize)>;

    closed spec fn view(&self) -> Seq<(usize, usize, usize)> {
        self.inner@
    }
}

/// The tag of the first range `(start, end, _)` with `idx + 1` in
/// `[start, end)`.  The `+ 1` bias matches how the producer reports
/// ranges.
pub open spec fn hl_lookup(ranges: Seq<(usize, usize, usize)>, idx: int) -> Option<usize>
    decreases ranges.len(),
{
    if ranges.len() == 0 {
        None
    } else if ranges.first().0 <= idx + 1 < ranges.first().1 {
        Some(ranges.first().2)
    } else {
        hl_lookup(ranges.drop_first(), idx)
    }
}

/// Pair highlight events into ranges: sources and tags pile up on two
/// stacks, and each `End` takes the top of both (when both are there) as
/// one finished range.  A mismatched `End` still consumes what it can and
/// yields nothing.
pub open spec fn pair_events_from(
    events: Seq<HlEvent>,
    ranges: Seq<(usize, usize)>,
    tags: Seq<usize>,
    out: Seq<(usize, usize, usize)>,
) -> Seq<(usize, usize, usize)>
    decreases events.len(),
{
    if events.len() == 0 {
        out
    } else {
        let rest = events.drop_first();
        match events.first() {
            HlEvent::Source(s, e) => pair_events_from(rest, ranges.push((s, e)), tags, out),
            HlEvent::Start(t) => pair_events_from(rest, ranges, tags.push(t), out),
            HlEvent::End => {
                let out2 = if ranges.len() > 0 && tags.len() > 0 {
                    out.push((ranges.last().0, ranges.last().1, tags.last()))
                } else {
                    out
                };
                let ranges2 = if ranges.len() > 0 {
                    ranges.drop_last()
                } else {
                    ranges
                };
                let tags2 = if tags.len() > 0 {
                    tags.drop_last()
                } else {
                    tags
                };
                pair_events_from(rest, ranges2, tags2, out2)
            },
        }
    }
}

/// The ranges that a full event stream pairs into.
pub open spec fn pair_events(events: Seq<HlEvent>) -> Seq<(usize, usize, usize)> {
    pair_events_from(
        events,
        Seq::<(usize, usize)>::empty(),
        Seq::<usize>::empty(),
        Seq::<(usize, usize, usize)>::empty(),
    )
}

impl HlQueue {
    /// An empty overlay with room for `cap` ranges.
    pub fn with_capacity(cap: usize) -> (q: Self)
        ensures
            q@ == Seq::<(usize, usize, usize)>::empty(),
    {
        HlQueue { inner: Vec::with_capacity(cap) }
    }

    /// Drop every range.
    pub fn clear(&mut self)
        ensures
            final(self)@ == Seq::<(usize, usize, usize)>::empty(),
    {
        self.inner.clear();
    }

    /// Append a range.
    pub fn push(&mut self, item: (usize, usize, usize))
        ensures
            final(self)@ == old(self)@.push(item),
    {
        self.inner.push(item);
    }

    /// The tag at `index`, by the first matching range.
    pub fn get(&self, index: usize) -> (r: Option<usize>)
        requires
            index < usize::MAX,
        ensures
            r == hl_lookup(self@, index as int),
    {
        let idx = index + 1;
        let n = self.inner.len();
        let mut i: usize = 0;
        proof {
            assert(self@.skip(0) =~= self@);
        }
        while i < n
            invariant
                n == self@.len(),
                i <= n,
                idx == index + 1,
                index < usize::MAX,
                hl_lookup(self@.skip(i as int), index as int) == hl_lookup(
                    self@,
                    index as int,
                ),
            decreases n - i,
        {
            let (start, end, hl) = self.inner[i];
            proof {
                assert(self@.skip(i as int).first() == self@[i as int]);
                assert(self@.skip(i as int).drop_first() =~= self@.skip(i + 1));
            }
            if idx >= start && idx < end {
                return Some(hl);
            }
            i = i + 1;
        }
        None
    }

    /// Replace the contents with the ranges paired from `events`.
    pub fn rebuild(&mut self, events: &Vec<HlEvent>)
        ensures
            final(self)@ == pair_events(events@),
    {
        self.inner.clear();
        let mut next_range: Vec<(usize, usize)> = Vec::new();
        let mut next_hl: Vec<usize> = Vec::new();
        let n = events.len();
        let mut i: usize = 0;
        proof {
            assert(events@.skip(0) =~= events@);
            assert(next_range@ =~= Seq::<(usize, usize)>::empty());
            assert(next_hl@ =~= Seq::<usize>::empty());
            assert(self.inner@ =~= Seq::<(usize, usize, usize)>::empty());
        }
        while i < n
            invariant
                n == events@.len(),
                i <= n,
                pair_events_from(events@.skip(i as int), next_range@, next_hl@, self.inner@)
                    == pair_events(events@),
            decreases n - i,
        {
            proof {
                assert(events@.skip(i as int).first() == events@[i as int]);
                assert(events@.skip(i as int).drop_first() =~= events@.skip(i + 1));
            }
            match events[i] {
                HlEvent::Source(start, end) => {
                    next_range.push((start, end));
                },
                HlEvent::Start(t) => {
                    next_hl.push(t);
                },
                HlEvent::End => {
                    let tag = next_hl.pop();
                    let range = next_range.pop();
                    if let (Some(t), Some((start, end))) = (tag, range) {
                        self.inner.push((start, end, t));
                    }
                },
            }
            i = i + 1;
        }
        proof {
            assert(events@.skip(n as int) =~= Seq::<HlEvent>::empty());
        }
    }
}

} // verus!
