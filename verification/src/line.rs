//! Line and column arithmetic over a piece-table buffer.
//!
//! The buffer is generic; only the element type knows which element is a
//! line break.  `line_of` and `col_of` give each logical index a line
//! number and a column within that line, and `line_column_to_idx` finds
//! the index for a `(column, line)` pair by a forward scan.

use vstd::prelude::*;

use crate::buffer::PtBuffer;

verus! {

/// An element type that can tell whether it is a line break.
pub trait Newline {
    spec fn is_newline(&self) -> bool;

    /// Decide at run time what `is_newline` says.
    fn check_newline(&self) -> (b: bool)
        ensures
            b == self.is_newline(),
    ;
}

impl Newline for u8 {
    open spec fn is_newline(&self) -> bool {
        *self == 10u8
    }

    fn check_newline(&self) -> (b: bool) {
        *self == 10
    }
}

impl Newline for String {
    open spec fn is_newline(&self) -> bool {
        self@ == seq!['\n']
    }

    fn check_newline(&self) -> (b: bool) {
        let s = self.as_str();
        let b = if s.unicode_len() == 1 {
            s.get_char(0) == '\n'
        } else {
            false
        };
        proof {
            if b {
                assert(self@ =~= seq!['\n']);
            }
            if self@ == seq!['\n'] {
                assert(self@.len() == 1);
                assert(self@[0] == '\n');
            }
        }
        b
    }
}

/// The number of the line that the element at index `i` lies on: how many
/// line breaks come before it.
pub open spec fn line_of<T: Newline>(s: Seq<T>, i: int) -> int
    decreases i,
{
    if i <= 0 {
        0
    } else {
        line_of(s, i - 1) + if s[i - 1].is_newline() {
            1int
        } else {
            0int
        }
    }
}

/// The column of the element at index `i`: its distance from the start of
/// its line.
pub open spec fn col_of<T: Newline>(s: Seq<T>, i: int) -> int
    decreases i,
{
    if i <= 0 {
        0
    } else if s[i - 1].is_newline() {
        0
    } else {
        col_of(s, i - 1) + 1
    }
}

/// The index of the first line break at or after `j`.
pub open spec fn find_newline<T: Newline>(s: Seq<T>, j: int) -> Option<int>
    decreases s.len() - j,
{
    if j < 0 || j >= s.len() {
        None
    } else if s[j].is_newline() {
        Some(j)
    } else {
        find_newline(s, j + 1)
    }
}

/// Line numbers never decrease along the sequence.
pub proof fn lemma_line_of_monotone<T: Newline>(s: Seq<T>, i: int, j: int)
    requires
        0 <= i <= j,
    ensures
        line_of(s, i) <= line_of(s, j),
    decreases j - i,
{
    if i < j {
        lemma_line_of_monotone(s, i, j - 1);
    }
}

/// On one line, the column grows exactly with the index: a `(column,
/// line)` pair therefore names at most one element.
pub proof fn lemma_same_line_col<T: Newline>(s: Seq<T>, i: int, j: int)
    requires
        0 <= i <= j,
        line_of(s, i) == line_of(s, j),
    ensures
        col_of(s, j) == col_of(s, i) + (j - i),
    decreases j - i,
{
    if i < j {
        lemma_line_of_monotone(s, i, j - 1);
        lemma_same_line_col(s, i, j - 1);
    }
}

impl<T: Newline> PtBuffer<T> {
    /// Whether some element sits at `(column, line)`.
    pub open spec fn spec_has_position(self, column: int, line: int) -> bool {
        exists|i: int|
            0 <= i < self@.len() && #[trigger] line_of(self@, i) == line && col_of(self@, i)
                == column
    }

    /// The logical index of the element at `(column, line)`.  The pair
    /// must name an existing element; the editor clamps its cursor before
    /// asking.
    pub fn line_column_to_idx(&self, column: usize, line: usize) -> (idx: usize)
        requires
            self.wf(),
            self.spec_has_position(column as int, line as int),
        ensures
            idx < self@.len(),
            line_of(self@, idx as int) == line,
            col_of(self@, idx as int) == column,
    {
        match self.try_line_column_to_idx(column, line) {
            Some(idx) => idx,
            None => 0,
        }
    }

    /// As `line_column_to_idx`, but reporting an unreachable pair as
    /// `None` instead of demanding it does not occur.
    pub fn try_line_column_to_idx(&self, column: usize, line: usize) -> (r: Option<usize>)
        requires
            self.wf(),
        ensures
            r is Some <==> self.spec_has_position(column as int, line as int),
            match r {
                Some(idx) => idx < self@.len() && line_of(self@, idx as int) == line && col_of(
                    self@,
                    idx as int,
                ) == column,
                None => true,
            },
    {
        let n = self.len();
        let mut it = self.iter();
        let mut idx: usize = 0;
        let mut l_count: usize = 0;
        let mut c_count: usize = 0;
        while idx < n
            invariant
                self.wf(),
                it.wf(*self),
                it.pos(*self) == idx,
                n == self@.len(),
                idx <= n,
                c_count <= idx,
                l_count <= idx,
                l_count == line_of(self@, idx as int),
                l_count < line ==> c_count == 0,
                l_count == line ==> c_count == col_of(self@, idx as int),
                forall|j: int|
                    0 <= j < idx ==> !(#[trigger] line_of(self@, j) == line && col_of(self@, j)
                        == column),
            decreases n - idx,
        {
            let c = match it.next(self) {
                Some(c) => c,
                None => {
                    return None;
                },
            };
            if column == c_count && line == l_count {
                return Some(idx);
            }
            if l_count == line {
                c_count = c_count + 1;
            }
            if c.check_newline() {
                l_count = l_count + 1;
            }
            idx = idx + 1;
        }
        proof {
            if self.spec_has_position(column as int, line as int) {
                let i = choose|i: int|
                    0 <= i < self@.len() && #[trigger] line_of(self@, i) == line && col_of(
                        self@,
                        i,
                    ) == column;
                assert(!(line_of(self@, i) == line && col_of(self@, i) == column));
            }
        }
        None
    }
}

} // verus!
