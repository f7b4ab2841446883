//! The edit/render coordination layer.
//!
//! The editor owns one piece-table buffer of grapheme clusters, a document
//! screen, a log screen, a highlight overlay, and a cache of the visible
//! lines' lengths (elements per line, newline included), with one extra
//! entry in front for the line just above the viewport.  Commands move the
//! cursor against that cache or edit the buffer at the cursor's absolute
//! index.

use vstd::prelude::*;

use crate::buffer::PtBuffer;
use crate::hl::{HlEvent, HlQueue};
use crate::line::{col_of, line_of, Newline};
use crate::screen::{default_bg, render_clusters, width_of, Color, Screen, Style};

verus! {

/// What the input layer asks the editor to do.
#[derive(Debug, Copy, Clone)]
pub enum Command {
    Quit,
    Char(char),
    MoveLeft,
    WordLeft,
    WordRight,
    MoveRight,
    MoveDown,
    MoveUp,
    NewLine,
    DeleteForward,
    DeleteBackWard,
    Tab,
}

/// A one-cluster string: a space or a line break.
pub open spec fn spec_blank(s: Seq<char>) -> bool {
    s == seq![' '] || s == seq!['\n']
}

fn is_blank(s: &String) -> (b: bool)
    ensures
        b == spec_blank(s@),
{
    let t = s.as_str();
    let b = if t.unicode_len() == 1 {
        let c = t.get_char(0);
        c == ' ' || c == '\n'
    } else {
        false
    };
    proof {
        if b {
            if s@[0] == ' ' {
                assert(s@ =~= seq![' ']);
            } else {
                assert(s@ =~= seq!['\n']);
            }
        }
        if spec_blank(s@) {
            assert(s@.len() == 1);
        }
    }
    b
}

/// Relies on char::to_string: the one-character string of `c`.
#[verifier::external_body]
fn char_to_string(c: char) -> (s: String)
    ensures
        s@ == seq![c],
{
    c.to_string()
}

/// One step left over explicit state — the line cache, the grid width,
/// the cursor and the viewport offset: at column 0 wrap to the end of the
/// previous line, scrolling up only when that line is above the viewport
/// (the cursor already sat on the top row).
pub open spec fn left_core(le: Seq<usize>, w: nat, c: (nat, nat), off: nat) -> (
    (nat, nat),
    nat,
    bool,
) {
    let (x, y) = c;
    if x == 0 {
        let ex = le[y as int] - 1;
        let y2: int = if y > 0 {
            y as int - 1
        } else {
            0
        };
        (
            (((if ex < w { ex } else { w - 1 }) as nat), y2 as nat),
            (if y == 0 && off > 0 {
                (off - 1) as nat
            } else {
                off
            }),
            true,
        )
    } else {
        ((((x - 1) as nat), y), off, false)
    }
}

/// One step right over explicit state: past the line's ending wrap to
/// column 0 of the next line, scrolling down below the last row.
pub open spec fn right_core(le: Seq<usize>, w: nat, h: nat, c: (nat, nat), off: nat) -> (
    (nat, nat),
    nat,
    bool,
) {
    let (x, y) = c;
    let ending = le[y as int + 1];
    if x + 1 >= ending {
        (
            (0nat, (if y + 1 < h { (y + 1) as nat } else { (h - 1) as nat })),
            (if y + 1 >= h {
                (off + 1) as nat
            } else {
                off
            }),
            y + 1 >= h,
        )
    } else {
        (((if x + 1 < w { (x + 1) as nat } else { (w - 1) as nat }), y), off, false)
    }
}

/// One guarded step left: step when the cache covers the cursor, stand
/// still otherwise.
pub open spec fn left_guarded(le: Seq<usize>, w: nat, c: (nat, nat), off: nat) -> ((nat, nat), nat) {
    if c.0 > 0 || c.1 < le.len() {
        let r = left_core(le, w, c, off);
        (r.0, r.1)
    } else {
        (c, off)
    }
}

/// One guarded step right: step when the cache covers the next line and
/// the offset can still grow.
pub open spec fn right_guarded(
    le: Seq<usize>,
    w: nat,
    h: nat,
    c: (nat, nat),
    off: nat,
) -> ((nat, nat), nat) {
    if c.1 + 1 < le.len() && off < usize::MAX {
        let r = right_core(le, w, h, c, off);
        (r.0, r.1)
    } else {
        (c, off)
    }
}

/// `n` guarded steps left in a row.
pub open spec fn left_walk(le: Seq<usize>, w: nat, c: (nat, nat), off: nat, n: nat) -> (
    (nat, nat),
    nat,
)
    decreases n,
{
    if n == 0 {
        (c, off)
    } else {
        let s1 = left_guarded(le, w, c, off);
        left_walk(le, w, s1.0, s1.1, (n - 1) as nat)
    }
}

/// `n` guarded steps right in a row.
pub open spec fn right_walk(
    le: Seq<usize>,
    w: nat,
    h: nat,
    c: (nat, nat),
    off: nat,
    n: nat,
) -> ((nat, nat), nat)
    decreases n,
{
    if n == 0 {
        (c, off)
    } else {
        let s1 = right_guarded(le, w, h, c, off);
        right_walk(le, w, h, s1.0, s1.1, (n - 1) as nat)
    }
}

/// A walk of `n + 1` steps is a walk of `n` steps and one more.
proof fn lemma_left_walk_snoc(le: Seq<usize>, w: nat, c: (nat, nat), off: nat, n: nat)
    ensures
        left_walk(le, w, c, off, (n + 1) as nat) == ({
            let s1 = left_walk(le, w, c, off, n);
            left_guarded(le, w, s1.0, s1.1)
        }),
    decreases n,
{
    let s1 = left_guarded(le, w, c, off);
    assert(left_walk(le, w, c, off, (n + 1) as nat) == left_walk(le, w, s1.0, s1.1, n));
    if n > 0 {
        assert(left_walk(le, w, c, off, n) == left_walk(le, w, s1.0, s1.1, (n - 1) as nat));
        lemma_left_walk_snoc(le, w, s1.0, s1.1, (n - 1) as nat);
    } else {
        assert(left_walk(le, w, s1.0, s1.1, 0) == (s1.0, s1.1));
        assert(left_walk(le, w, c, off, 0) == (c, off));
    }
}

proof fn lemma_right_walk_snoc(le: Seq<usize>, w: nat, h: nat, c: (nat, nat), off: nat, n: nat)
    ensures
        right_walk(le, w, h, c, off, (n + 1) as nat) == ({
            let s1 = right_walk(le, w, h, c, off, n);
            right_guarded(le, w, h, s1.0, s1.1)
        }),
    decreases n,
{
    let s1 = right_guarded(le, w, h, c, off);
    assert(right_walk(le, w, h, c, off, (n + 1) as nat) == right_walk(
        le,
        w,
        h,
        s1.0,
        s1.1,
        n,
    ));
    if n > 0 {
        assert(right_walk(le, w, h, c, off, n) == right_walk(
            le,
            w,
            h,
            s1.0,
            s1.1,
            (n - 1) as nat,
        ));
        lemma_right_walk_snoc(le, w, h, s1.0, s1.1, (n - 1) as nat);
    } else {
        assert(right_walk(le, w, h, s1.0, s1.1, 0) == (s1.0, s1.1));
        assert(right_walk(le, w, h, c, off, 0) == (c, off));
    }
}

/// How many consecutive elements just before `pos` have blankness
/// `blank`: what a backward word scan consumes before its boundary.
pub open spec fn run_left(s: Seq<String>, pos: int, blank: bool) -> int
    decreases pos,
{
    if pos <= 0 {
        0
    } else if spec_blank(s[pos - 1]@) == blank {
        1 + run_left(s, pos - 1, blank)
    } else {
        0
    }
}

/// How many consecutive elements from `pos` on have blankness `blank`:
/// what a forward word scan consumes before its boundary.
pub open spec fn run_right(s: Seq<String>, pos: int, blank: bool) -> int
    decreases s.len() - pos,
{
    if pos < 0 || pos >= s.len() {
        0
    } else if spec_blank(s[pos]@) == blank {
        1 + run_right(s, pos + 1, blank)
    } else {
        0
    }
}

/// One document buffer with its two screens, highlight overlay, log
/// lines, and line-length cache.
pub struct Editor {
    doc: PtBuffer<String>,
    highlight: HlQueue,
    editor_screen: Screen,
    log_screen: Screen,
    log_buffer: Vec<String>,
    line_endings: Vec<usize>,
}

impl Editor {
    /// The document, as a sequence of grapheme-cluster strings.
    pub closed spec fn spec_doc(self) -> Seq<String> {
        self.doc@
    }

    /// The document, cluster by cluster, as characters.
    pub open spec fn spec_doc_chars(self) -> Seq<Seq<char>> {
        self.spec_doc().map_values(|s: String| s@)
    }

    pub closed spec fn spec_highlight(self) -> Seq<(usize, usize, usize)> {
        self.highlight@
    }

    pub closed spec fn spec_line_endings(self) -> Seq<usize> {
        self.line_endings@
    }

    pub closed spec fn spec_logs(self) -> Seq<String> {
        self.log_buffer@
    }

    /// Cursor of the document screen, in grid coordinates.
    pub closed spec fn spec_cursor(self) -> (nat, nat) {
        self.editor_screen.spec_cursor()
    }

    pub closed spec fn spec_line_offset(self) -> nat {
        self.editor_screen.spec_line_offset()
    }

    pub closed spec fn spec_doc_grid(self) -> Seq<crate::screen::CellView> {
        self.editor_screen.grid()
    }

    pub closed spec fn spec_log_grid(self) -> Seq<crate::screen::CellView> {
        self.log_screen.grid()
    }

    pub closed spec fn spec_doc_width(self) -> nat {
        self.editor_screen.spec_width()
    }

    pub closed spec fn spec_doc_height(self) -> nat {
        self.editor_screen.spec_height()
    }

    pub closed spec fn spec_log_width(self) -> nat {
        self.log_screen.spec_width()
    }

    pub closed spec fn spec_log_height(self) -> nat {
        self.log_screen.spec_height()
    }

    /// The buffer, the screens and the cache are all well-formed: every
    /// cached line length counts at least the line break itself.
    pub closed spec fn wf(self) -> bool {
        &&& self.doc.wf()
        &&& self.editor_screen.wf()
        &&& self.log_screen.wf()
        &&& self.editor_screen.spec_height() < usize::MAX
        &&& forall|i: int|
            0 <= i < self.line_endings@.len() ==> #[trigger] self.line_endings@[i] >= 1
    }

    /// Bundle a document with its screens.
    pub fn new(
        doc: PtBuffer<String>,
        editor_screen: Screen,
        log_screen: Screen,
        log_buffer: Vec<String>,
    ) -> (e: Editor)
        requires
            doc.wf(),
            editor_screen.wf(),
            log_screen.wf(),
            editor_screen.spec_height() < usize::MAX,
        ensures
            e.wf(),
            e.spec_doc() == doc@,
            e.spec_highlight() == Seq::<(usize, usize, usize)>::empty(),
            e.spec_logs() == log_buffer@,
            e.spec_line_endings() == Seq::<usize>::empty(),
            e.spec_cursor() == editor_screen.spec_cursor(),
            e.spec_line_offset() == editor_screen.spec_line_offset(),
            e.spec_doc_grid() == editor_screen.grid(),
            e.spec_log_grid() == log_screen.grid(),
    {
        let highlight = HlQueue::with_capacity(doc.len());
        Editor { doc, highlight, editor_screen, log_screen, log_buffer, line_endings: Vec::new() }
    }

    /// The document buffer, read-only.
    pub fn doc(&self) -> (d: &PtBuffer<String>)
        ensures
            d@ == self.spec_doc(),
            self.wf() ==> d.wf(),
    {
        &self.doc
    }

    /// The document screen, read-only (for presenting).
    pub fn doc_screen(&self) -> (s: &Screen)
        ensures
            s.grid() == self.spec_doc_grid(),
            s.spec_width() == self.spec_doc_width(),
            s.spec_height() == self.spec_doc_height(),
            s.spec_cursor() == self.spec_cursor(),
            s.spec_line_offset() == self.spec_line_offset(),
            self.wf() ==> s.wf(),
    {
        &self.editor_screen
    }

    /// The log screen, read-only (for presenting).
    pub fn log_screen(&self) -> (s: &Screen)
        ensures
            s.grid() == self.spec_log_grid(),
            s.spec_width() == self.spec_log_width(),
            s.spec_height() == self.spec_log_height(),
            self.wf() ==> s.wf(),
    {
        &self.log_screen
    }

    /// The cached line lengths, read-only.
    pub fn line_endings(&self) -> (le: &Vec<usize>)
        ensures
            le@ == self.spec_line_endings(),
    {
        &self.line_endings
    }

    /// Append a line to the log.
    pub fn log(&mut self, line: String)
        ensures
            final(self).spec_logs() == old(self).spec_logs().push(line),
            final(self).wf() == old(self).wf(),
            final(self).spec_doc() == old(self).spec_doc(),
            final(self).spec_highlight() == old(self).spec_highlight(),
            final(self).spec_line_endings() == old(self).spec_line_endings(),
            final(self).spec_cursor() == old(self).spec_cursor(),
            final(self).spec_line_offset() == old(self).spec_line_offset(),
            final(self).spec_doc_grid() == old(self).spec_doc_grid(),
            final(self).spec_log_grid() == old(self).spec_log_grid(),
    {
        self.log_buffer.push(line);
        proof {
            assert(self.doc == old(self).doc);
            assert(self.editor_screen == old(self).editor_screen);
            assert(self.log_screen == old(self).log_screen);
            assert(self.line_endings == old(self).line_endings);
            assert(self.wf() == old(self).wf());
        }
    }

    /// Replace the highlight overlay with the ranges paired from the
    /// engine's events.
    pub fn update_highlights(&mut self, events: &Vec<HlEvent>)
        ensures
            final(self).spec_highlight() == crate::hl::pair_events(events@),
            final(self).wf() == old(self).wf(),
            final(self).spec_doc() == old(self).spec_doc(),
            final(self).spec_logs() == old(self).spec_logs(),
            final(self).spec_line_endings() == old(self).spec_line_endings(),
            final(self).spec_cursor() == old(self).spec_cursor(),
            final(self).spec_line_offset() == old(self).spec_line_offset(),
            final(self).spec_doc_grid() == old(self).spec_doc_grid(),
            final(self).spec_log_grid() == old(self).spec_log_grid(),
    {
        self.highlight.rebuild(events);
        proof {
            assert(self.doc == old(self).doc);
            assert(self.editor_screen == old(self).editor_screen);
            assert(self.log_screen == old(self).log_screen);
            assert(self.line_endings == old(self).line_endings);
            assert(self.wf() == old(self).wf());
        }
    }

    /// The absolute document index under the cursor, or `None` when the
    /// cursor points past the document.
    pub fn try_cursor_absolute_position(&self) -> (r: Option<usize>)
        requires
            self.wf(),
            self.spec_line_offset() + self.spec_doc_height() <= usize::MAX,
        ensures
            r is Some <==> self.doc_has_cursor_position(),
            match r {
                Some(idx) => idx < self.spec_doc().len() && line_of(self.spec_doc(), idx as int)
                    == self.spec_cursor().1 + self.spec_line_offset() && col_of(
                    self.spec_doc(),
                    idx as int,
                ) == self.spec_cursor().0,
                None => true,
            },
    {
        let (x, y) = self.editor_screen.cursor();
        let line = y + self.editor_screen.line_offset();
        self.doc.try_line_column_to_idx(x, line)
    }

    /// Whether some document element sits under the cursor.
    pub open spec fn doc_has_cursor_position(self) -> bool {
        exists|i: int|
            0 <= i < self.spec_doc().len() && #[trigger] line_of(self.spec_doc(), i)
                == self.spec_cursor().1 + self.spec_line_offset() && col_of(self.spec_doc(), i)
                == self.spec_cursor().0
    }

    /// Everything except the cursor and the viewport offset is unchanged.
    pub open spec fn same_but_cursor(self, other: Editor) -> bool {
        &&& other.spec_doc() == self.spec_doc()
        &&& other.spec_highlight() == self.spec_highlight()
        &&& other.spec_logs() == self.spec_logs()
        &&& other.spec_line_endings() == self.spec_line_endings()
        &&& other.spec_doc_grid() == self.spec_doc_grid()
        &&& other.spec_log_grid() == self.spec_log_grid()
        &&& other.spec_doc_width() == self.spec_doc_width()
        &&& other.spec_doc_height() == self.spec_doc_height()
    }

    /// Element `i` of the document sits under the cursor.
    pub open spec fn cursor_position_at(self, i: int) -> bool {
        &&& 0 <= i < self.spec_doc().len()
        &&& line_of(self.spec_doc(), i) == self.spec_cursor().1 + self.spec_line_offset()
        &&& col_of(self.spec_doc(), i) == self.spec_cursor().0
    }

    /// What one step left does: the cursor, the viewport offset, and the
    /// redraw flag afterwards.
    pub open spec fn left_result(self) -> ((nat, nat), nat, bool) {
        left_core(
            self.spec_line_endings(),
            self.spec_doc_width(),
            self.spec_cursor(),
            self.spec_line_offset(),
        )
    }

    /// What one step right does.
    pub open spec fn right_result(self) -> ((nat, nat), nat, bool) {
        right_core(
            self.spec_line_endings(),
            self.spec_doc_width(),
            self.spec_doc_height(),
            self.spec_cursor(),
            self.spec_line_offset(),
        )
    }

    /// What one step down does.
    pub open spec fn down_result(self) -> ((nat, nat), nat, bool) {
        let (x, y) = self.spec_cursor();
        let w = self.spec_doc_width();
        let h = self.spec_doc_height();
        let off = self.spec_line_offset();
        let ending = self.spec_line_endings()[y as int + 2];
        let x2: int = if x >= ending {
            ending - 1
        } else {
            x as int
        };
        if y + 1 >= h {
            (self.spec_cursor(), (off + 1) as nat, true)
        } else {
            (((if x2 < w { x2 as nat } else { (w - 1) as nat }), (y + 1) as nat), off, false)
        }
    }

    /// What one step up does.
    pub open spec fn up_result(self) -> ((nat, nat), nat, bool) {
        let (x, y) = self.spec_cursor();
        let w = self.spec_doc_width();
        let off = self.spec_line_offset();
        if y == 0 {
            (self.spec_cursor(), (if off > 0 { (off - 1) as nat } else { 0nat }), true)
        } else {
            let ending = self.spec_line_endings()[y as int];
            let x2: int = if x >= ending {
                ending - 1
            } else {
                x as int
            };
            (((if x2 < w { x2 as nat } else { (w - 1) as nat }), (y - 1) as nat), off, false)
        }
    }

    /// Move one column left; at column 0, wrap to the end of the previous
    /// line, scrolling up only when that line is above the viewport (the
    /// cursor sat on the top row).  Returns whether the viewport needs a
    /// redraw.
    pub fn cursor_left(&mut self) -> (redraw: bool)
        requires
            old(self).wf(),
            old(self).spec_cursor().0 == 0 ==> old(self).spec_cursor().1 < old(self).spec_line_endings().len(),
        ensures
            final(self).wf(),
            old(self).same_but_cursor(*final(self)),
            (final(self).spec_cursor(), final(self).spec_line_offset(), redraw) == old(self).left_result(),
    {
        let (x, y) = self.editor_screen.cursor();
        if x == 0 {
            let ending = self.line_endings[y];
            proof {
                assert(self.line_endings@[y as int] >= 1);
            }
            let x2 = ending - 1;
            let y2 = if y > 0 {
                y - 1
            } else {
                0
            };
            if y == 0 {
                self.editor_screen.dec_offset();
            }
            self.editor_screen.set_cursor(x2, y2);
            proof {
                self.lemma_screen_frame(*old(self));
            }
            true
        } else {
            self.editor_screen.set_cursor(x - 1, y);
            proof {
                self.lemma_screen_frame(*old(self));
            }
            false
        }
    }

    /// Move one column right; past the end of the line, wrap to column 0
    /// of the next line (scrolling down when that line is below the
    /// viewport).
    pub fn cursor_right(&mut self) -> (redraw: bool)
        requires
            old(self).wf(),
            old(self).spec_cursor().1 + 1 < old(self).spec_line_endings().len(),
            old(self).spec_line_offset() < usize::MAX,
        ensures
            final(self).wf(),
            old(self).same_but_cursor(*final(self)),
            (final(self).spec_cursor(), final(self).spec_line_offset(), redraw) == old(self).right_result(),
    {
        let (x, y) = self.editor_screen.cursor();
        let ending = self.line_endings[y + 1];
        proof {
            assert(self.line_endings@[y as int + 1] >= 1);
        }
        if x >= ending - 1 {
            let y2 = y + 1;
            let redraw = if y2 > self.editor_screen.height() - 1 {
                self.editor_screen.inc_offset();
                true
            } else {
                false
            };
            self.editor_screen.set_cursor(0, y2);
            proof {
                self.lemma_screen_frame(*old(self));
            }
            redraw
        } else {
            self.editor_screen.set_cursor(x + 1, y);
            proof {
                self.lemma_screen_frame(*old(self));
            }
            false
        }
    }

    /// Move one line down, clamping the column to that line's length and
    /// scrolling when the line is below the viewport.
    pub fn cursor_down(&mut self) -> (redraw: bool)
        requires
            old(self).wf(),
            old(self).spec_cursor().1 + 2 < old(self).spec_line_endings().len(),
            old(self).spec_line_offset() < usize::MAX,
        ensures
            final(self).wf(),
            old(self).same_but_cursor(*final(self)),
            (final(self).spec_cursor(), final(self).spec_line_offset(), redraw) == old(self).down_result(),
    {
        let (mut x, y) = self.editor_screen.cursor();
        let len = self.line_endings.len();
        let y2 = if y + 1 < len - 1 {
            y + 1
        } else {
            len - 1
        };
        let ending = self.line_endings[y2 + 1];
        proof {
            assert(self.line_endings@[y2 as int + 1] >= 1);
        }
        if x >= ending {
            x = ending - 1;
        }
        if y2 > self.editor_screen.height() - 1 {
            self.editor_screen.inc_offset();
            proof {
                self.lemma_screen_frame(*old(self));
            }
            true
        } else {
            self.editor_screen.set_cursor(x, y2);
            proof {
                self.lemma_screen_frame(*old(self));
            }
            false
        }
    }

    /// Move one line up, clamping the column to that line's length; at the
    /// top row, scroll the viewport up instead.
    pub fn cursor_up(&mut self) -> (redraw: bool)
        requires
            old(self).wf(),
            old(self).spec_cursor().1 > 0 ==> old(self).spec_cursor().1 < old(self).spec_line_endings().len(),
        ensures
            final(self).wf(),
            old(self).same_but_cursor(*final(self)),
            (final(self).spec_cursor(), final(self).spec_line_offset(), redraw) == old(self).up_result(),
    {
        let (x, y) = self.editor_screen.cursor();
        if y == 0 {
            self.editor_screen.dec_offset();
            proof {
                self.lemma_screen_frame(*old(self));
            }
            true
        } else {
            let ending = self.line_endings[y];
            proof {
                assert(self.line_endings@[y as int] >= 1);
            }
            let x2 = if x >= ending {
                ending - 1
            } else {
                x
            };
            self.editor_screen.set_cursor(x2, y - 1);
            proof {
                self.lemma_screen_frame(*old(self));
            }
            false
        }
    }

    /// Only the document screen's cursor and offset were touched: the
    /// rest of the editor, and the grids, are as before.
    proof fn lemma_screen_frame(self, other: Editor)
        requires
            self.doc == other.doc,
            self.highlight == other.highlight,
            self.log_screen == other.log_screen,
            self.log_buffer == other.log_buffer,
            self.line_endings == other.line_endings,
        ensures
            other.same_but_cursor(self) <== (self.editor_screen.grid()
                == other.editor_screen.grid() && self.editor_screen.spec_width()
                == other.editor_screen.spec_width() && self.editor_screen.spec_height()
                == other.editor_screen.spec_height()),
    {
    }

    /// The viewport offset leaves every visible line number within the
    /// machine's range.
    pub open spec fn offset_in_range(self) -> bool {
        self.spec_line_offset() + self.spec_doc_height() <= usize::MAX
    }

    fn offset_ok(&self) -> (b: bool)
        requires
            self.wf(),
        ensures
            b == self.offset_in_range(),
    {
        self.editor_screen.line_offset() <= usize::MAX - self.editor_screen.height()
    }

    /// Carry out one command against the buffer and the cursor.  Editing
    /// commands report that the viewport needs a redraw.  A command whose
    /// cursor does not sit on a document element leaves the document
    /// unchanged.
    #[verifier::rlimit(80)]
    pub fn apply(&mut self, cmd: Command) -> (redraw: bool)
        requires
            old(self).wf(),
            old(self).spec_doc().len() + 2 <= usize::MAX,
        ensures
            final(self).wf(),
            final(self).spec_line_endings() == old(self).spec_line_endings(),
            final(self).spec_logs() == old(self).spec_logs(),
            final(self).spec_highlight() == old(self).spec_highlight(),
            final(self).spec_doc_grid() == old(self).spec_doc_grid(),
            final(self).spec_log_grid() == old(self).spec_log_grid(),
            final(self).spec_doc_width() == old(self).spec_doc_width(),
            final(self).spec_doc_height() == old(self).spec_doc_height(),
            match cmd {
                Command::Quit => old(self).same_but_cursor(*final(self)) && final(self).spec_cursor() == old(self).spec_cursor() && final(self).spec_line_offset()
                    == old(self).spec_line_offset() && redraw == false,
                Command::Char(c) => redraw == true && (if old(self).offset_in_range() && old(self).doc_has_cursor_position() {
                    exists|i: int|
                        old(self).cursor_position_at(i) && final(self).spec_doc_chars() == old(self).spec_doc_chars().insert(i, seq![c])
                } else {
                    final(self).spec_doc() == old(self).spec_doc()
                }),
                Command::NewLine => redraw == true && (if old(self).offset_in_range() && old(self).doc_has_cursor_position() {
                    exists|i: int|
                        old(self).cursor_position_at(i) && final(self).spec_doc_chars() == old(self).spec_doc_chars().insert(i, seq!['\n'])
                } else {
                    final(self).spec_doc() == old(self).spec_doc()
                }),
                Command::Tab => redraw == true && (if old(self).offset_in_range() && old(self).doc_has_cursor_position() {
                    exists|i: int|
                        old(self).cursor_position_at(i) && final(self).spec_doc_chars() == old(self).spec_doc_chars().insert(i, seq![' ']).insert(i + 1, seq![' '])
                } else {
                    final(self).spec_doc() == old(self).spec_doc()
                }),
                Command::DeleteForward => redraw == true && (if old(self).offset_in_range()
                    && old(self).doc_has_cursor_position() {
                    exists|i: int|
                        old(self).cursor_position_at(i) && final(self).spec_doc_chars() == old(self).spec_doc_chars().remove(i)
                } else {
                    final(self).spec_doc() == old(self).spec_doc()
                }),
                Command::DeleteBackWard => {
                    &&& (old(self).offset_in_range() && old(self).cursor_position_at(0)
                        ==> final(self).spec_doc() == old(self).spec_doc() && final(self).spec_cursor() == old(self).spec_cursor() && final(self).spec_line_offset()
                        == old(self).spec_line_offset() && redraw == false)
                    &&& (old(self).offset_in_range() && old(self).doc_has_cursor_position()
                        && !old(self).cursor_position_at(0) ==> {
                        &&& redraw == true
                        &&& (final(self).spec_cursor(), final(self).spec_line_offset())
                            == left_guarded(
                            old(self).spec_line_endings(),
                            old(self).spec_doc_width(),
                            old(self).spec_cursor(),
                            old(self).spec_line_offset(),
                        )
                        &&& (if exists|j: int|
                            0 <= j < old(self).spec_doc().len() && #[trigger] line_of(
                                old(self).spec_doc(),
                                j,
                            ) == final(self).spec_cursor().1 + final(self).spec_line_offset()
                                && col_of(old(self).spec_doc(), j) == final(self).spec_cursor().0 {
                            exists|j: int|
                                0 <= j < old(self).spec_doc().len() && #[trigger] line_of(
                                    old(self).spec_doc(),
                                    j,
                                ) == final(self).spec_cursor().1 + final(self).spec_line_offset() && col_of(old(self).spec_doc(), j)
                                    == final(self).spec_cursor().0 && final(self).spec_doc_chars() == old(self).spec_doc_chars().remove(j)
                        } else {
                            final(self).spec_doc() == old(self).spec_doc()
                        })
                    })
                    &&& (!(old(self).offset_in_range() && old(self).doc_has_cursor_position())
                        ==> final(self).spec_doc() == old(self).spec_doc() && final(self).spec_cursor() == old(self).spec_cursor() && final(self).spec_line_offset()
                        == old(self).spec_line_offset() && redraw == true)
                },
                Command::MoveLeft => old(self).same_but_cursor(*final(self)) && (if old(self).spec_cursor().0 > 0 || old(self).spec_cursor().1 < old(self).spec_line_endings().len() {
                    (final(self).spec_cursor(), final(self).spec_line_offset(), redraw) == old(self).left_result()
                } else {
                    final(self).spec_cursor() == old(self).spec_cursor() && final(self).spec_line_offset() == old(self).spec_line_offset() && redraw == false
                }),
                Command::MoveRight => old(self).same_but_cursor(*final(self)) && (if old(self).spec_cursor().1 + 1 < old(self).spec_line_endings().len() && old(self).spec_line_offset() < usize::MAX {
                    (final(self).spec_cursor(), final(self).spec_line_offset(), redraw) == old(self).right_result()
                } else {
                    final(self).spec_cursor() == old(self).spec_cursor() && final(self).spec_line_offset() == old(self).spec_line_offset() && redraw == false
                }),
                Command::MoveUp => old(self).same_but_cursor(*final(self)) && (if old(self).spec_cursor().1 == 0 || old(self).spec_cursor().1 < old(self).spec_line_endings().len() {
                    (final(self).spec_cursor(), final(self).spec_line_offset(), redraw) == old(self).up_result()
                } else {
                    final(self).spec_cursor() == old(self).spec_cursor() && final(self).spec_line_offset() == old(self).spec_line_offset() && redraw == false
                }),
                Command::MoveDown => old(self).same_but_cursor(*final(self)) && (if old(self).spec_cursor().1 + 2 < old(self).spec_line_endings().len() && old(self).spec_line_offset() < usize::MAX {
                    (final(self).spec_cursor(), final(self).spec_line_offset(), redraw) == old(self).down_result()
                } else {
                    final(self).spec_cursor() == old(self).spec_cursor() && final(self).spec_line_offset() == old(self).spec_line_offset() && redraw == false
                }),
                Command::WordLeft => old(self).same_but_cursor(*final(self)) && redraw == false
                    && (if old(self).offset_in_range() && old(self).doc_has_cursor_position() {
                    exists|pos: int|
                        #[trigger] old(self).cursor_position_at(pos) && (
                        final(self).spec_cursor(),
                        final(self).spec_line_offset(),
                        ) == left_walk(
                            old(self).spec_line_endings(),
                            old(self).spec_doc_width(),
                            old(self).spec_cursor(),
                            old(self).spec_line_offset(),
                            run_left(
                                old(self).spec_doc(),
                                pos,
                                spec_blank(
                                    old(self).spec_doc()[if pos > 0 {
                                        pos - 1
                                    } else {
                                        0
                                    }]@,
                                ),
                            ) as nat,
                        )
                } else {
                    final(self).spec_cursor() == old(self).spec_cursor() && final(self).spec_line_offset() == old(self).spec_line_offset()
                }),
                Command::WordRight => old(self).same_but_cursor(*final(self)) && redraw == false
                    && (if old(self).offset_in_range() && old(self).doc_has_cursor_position() {
                    exists|pos: int|
                        #[trigger] old(self).cursor_position_at(pos) && (
                        final(self).spec_cursor(),
                        final(self).spec_line_offset(),
                        ) == right_walk(
                            old(self).spec_line_endings(),
                            old(self).spec_doc_width(),
                            old(self).spec_doc_height(),
                            old(self).spec_cursor(),
                            old(self).spec_line_offset(),
                            run_right(
                                old(self).spec_doc(),
                                pos,
                                spec_blank(old(self).spec_doc()[pos]@),
                            ) as nat,
                        )
                } else {
                    final(self).spec_cursor() == old(self).spec_cursor() && final(self).spec_line_offset() == old(self).spec_line_offset()
                }),
            },
    {
        match cmd {
            Command::Quit => {
                proof {
                    assert(old(self).same_but_cursor(*self));
                }
                false
            },
            Command::Char(c) => {
                if self.offset_ok() {
                    match self.try_cursor_absolute_position() {
                        Some(pos) => {
                            let s = char_to_string(c);
                            self.doc.insert(pos, s);
                            proof {
                                self.lemma_doc_edit_frame(*old(self));
                                assert(self.spec_doc_chars() =~= old(self).spec_doc_chars()
                                    .insert(pos as int, seq![c]));
                            }
                            self.move_right_clamped();
                            proof {
                                assert(old(self).cursor_position_at(pos as int));
                                assert(self.spec_doc_chars() =~= old(self).spec_doc_chars()
                                    .insert(pos as int, seq![c]));
                            }
                        },
                        None => {},
                    }
                }
                true
            },
            Command::NewLine => {
                if self.offset_ok() {
                    match self.try_cursor_absolute_position() {
                        Some(pos) => {
                            let s = char_to_string('\n');
                            self.doc.insert(pos, s);
                            proof {
                                self.lemma_doc_edit_frame(*old(self));
                                assert(self.spec_doc_chars() =~= old(self).spec_doc_chars()
                                    .insert(pos as int, seq!['\n']));
                            }
                            let (_x, y) = self.editor_screen.cursor();
                            let y2 = y + 1;
                            if y2 > self.editor_screen.height() - 1 {
                                if self.editor_screen.line_offset() < usize::MAX {
                                    self.editor_screen.inc_offset();
                                }
                            }
                            self.editor_screen.set_cursor(0, y2);
                            proof {
                                assert(old(self).cursor_position_at(pos as int));
                                assert(self.spec_doc_chars() =~= old(self).spec_doc_chars()
                                    .insert(pos as int, seq!['\n']));
                            }
                        },
                        None => {},
                    }
                }
                true
            },
            Command::Tab => {
                if self.offset_ok() {
                    match self.try_cursor_absolute_position() {
                        Some(pos) => {
                            let s1 = char_to_string(' ');
                            let s2 = char_to_string(' ');
                            self.doc.insert(pos, s1);
                            proof {
                                self.lemma_doc_edit_frame(*old(self));
                            }
                            self.doc.insert(pos + 1, s2);
                            proof {
                                self.lemma_doc_edit_frame(*old(self));
                                assert(self.spec_doc_chars() =~= old(self).spec_doc_chars()
                                    .insert(pos as int, seq![' ']).insert(
                                    pos + 1,
                                    seq![' '],
                                ));
                            }
                            self.move_right_clamped();
                            self.move_right_clamped();
                            proof {
                                assert(old(self).cursor_position_at(pos as int));
                                assert(self.spec_doc_chars() =~= old(self).spec_doc_chars()
                                    .insert(pos as int, seq![' ']).insert(pos + 1, seq![' ']));
                            }
                        },
                        None => {},
                    }
                }
                true
            },
            Command::DeleteForward => {
                if self.offset_ok() {
                    match self.try_cursor_absolute_position() {
                        Some(pos) => {
                            self.doc.remove(pos);
                            proof {
                                self.lemma_doc_edit_frame(*old(self));
                                assert(old(self).cursor_position_at(pos as int));
                                assert(self.spec_doc_chars() =~= old(self).spec_doc_chars()
                                    .remove(pos as int));
                            }
                        },
                        None => {},
                    }
                }
                true
            },
            Command::DeleteBackWard => {
                if self.offset_ok() {
                    match self.try_cursor_absolute_position() {
                        Some(pos0) => {
                            if pos0 == 0 {
                                return false;
                            }
                            proof {
                                if old(self).cursor_position_at(0) {
                                    crate::line::lemma_same_line_col(
                                        old(self).spec_doc(),
                                        0,
                                        pos0 as int,
                                    );
                                }
                            }
                            self.move_left_clamped();
                            if self.offset_ok() {
                                let ghost moved = *self;
                                match self.try_cursor_absolute_position() {
                                    Some(pos) => {
                                        self.doc.remove(pos);
                                        proof {
                                            assert(moved.spec_doc() == old(self).spec_doc());
                                            assert(self.spec_cursor() == moved.spec_cursor());
                                            assert(self.spec_line_offset()
                                                == moved.spec_line_offset());
                                            assert(line_of(old(self).spec_doc(), pos as int)
                                                == self.spec_cursor().1
                                                + self.spec_line_offset());
                                            assert(col_of(old(self).spec_doc(), pos as int)
                                                == self.spec_cursor().0);
                                            assert(self.spec_doc_chars() =~= old(self)
                                                .spec_doc_chars().remove(pos as int));
                                        }
                                    },
                                    None => {},
                                }
                            }
                            true
                        },
                        None => true,
                    }
                } else {
                    true
                }
            },
            Command::MoveLeft => {
                self.move_left_clamped()
            },
            Command::MoveRight => {
                self.move_right_clamped()
            },
            Command::MoveUp => {
                let (_x, y) = self.editor_screen.cursor();
                if y == 0 || y < self.line_endings.len() {
                    self.cursor_up()
                } else {
                    false
                }
            },
            Command::MoveDown => {
                let (_x, y) = self.editor_screen.cursor();
                if y + 2 < self.line_endings.len() && self.editor_screen.line_offset()
                    < usize::MAX {
                    self.cursor_down()
                } else {
                    false
                }
            },
            Command::WordLeft => {
                self.word_left();
                false
            },
            Command::WordRight => {
                self.word_right();
                false
            },
        }
    }

    /// One step left, when the line cache covers the cursor.
    fn move_left_clamped(&mut self) -> (redraw: bool)
        requires
            old(self).wf(),
        ensures
            final(self).wf(),
            old(self).same_but_cursor(*final(self)),
            if old(self).spec_cursor().0 > 0 || old(self).spec_cursor().1 < old(self).spec_line_endings().len() {
                (final(self).spec_cursor(), final(self).spec_line_offset(), redraw) == old(self).left_result()
            } else {
                final(self).spec_cursor() == old(self).spec_cursor() && final(self).spec_line_offset() == old(self).spec_line_offset() && redraw == false
            },
    {
        let (x, y) = self.editor_screen.cursor();
        if x > 0 || y < self.line_endings.len() {
            self.cursor_left()
        } else {
            false
        }
    }

    /// One step right, when the line cache covers the next line.
    fn move_right_clamped(&mut self) -> (redraw: bool)
        requires
            old(self).wf(),
        ensures
            final(self).wf(),
            old(self).same_but_cursor(*final(self)),
            if old(self).spec_cursor().1 + 1 < old(self).spec_line_endings().len() && old(self).spec_line_offset() < usize::MAX {
                (final(self).spec_cursor(), final(self).spec_line_offset(), redraw) == old(self).right_result()
            } else {
                final(self).spec_cursor() == old(self).spec_cursor() && final(self).spec_line_offset() == old(self).spec_line_offset() && redraw == false
            },
    {
        let (_x, y) = self.editor_screen.cursor();
        if y + 1 < self.line_endings.len() && self.editor_screen.line_offset() < usize::MAX {
            self.cursor_right()
        } else {
            false
        }
    }

    /// Scan backwards from the cursor: consume a run of blanks, or a run
    /// of non-blanks, one cursor step left per element, stopping at the
    /// first boundary element.
    fn word_left(&mut self)
        requires
            old(self).wf(),
        ensures
            final(self).wf(),
            old(self).same_but_cursor(*final(self)),
            if old(self).offset_in_range() && old(self).doc_has_cursor_position() {
                exists|pos: int|
                    #[trigger] old(self).cursor_position_at(pos) && (
                    final(self).spec_cursor(),
                    final(self).spec_line_offset(),
                    ) == left_walk(
                        old(self).spec_line_endings(),
                        old(self).spec_doc_width(),
                        old(self).spec_cursor(),
                        old(self).spec_line_offset(),
                        run_left(
                            old(self).spec_doc(),
                            pos,
                            spec_blank(
                                old(self).spec_doc()[if pos > 0 {
                                    pos - 1
                                } else {
                                    0
                                }]@,
                            ),
                        ) as nat,
                    )
            } else {
                final(self).spec_cursor() == old(self).spec_cursor() && final(self).spec_line_offset() == old(self).spec_line_offset()
            },
    {
        if !self.offset_ok() {
            return ;
        }
        let pos = match self.try_cursor_absolute_position() {
            Some(p) => p,
            None => {
                return ;
            },
        };
        let doc_len = self.doc.len();
        if doc_len == 0 {
            return ;
        }
        let blank = {
            let probe = if pos > 0 {
                pos - 1
            } else {
                0
            };
            is_blank(self.doc.index(probe))
        };
        let ghost s0 = self.spec_doc();
        let ghost le0 = self.spec_line_endings();
        let ghost w0 = self.spec_doc_width();
        let ghost c0 = self.spec_cursor();
        let ghost off0 = self.spec_line_offset();
        let mut si = pos;
        while si > 0
            invariant
                self.wf(),
                old(self).same_but_cursor(*self),
                s0 == old(self).spec_doc(),
                le0 == old(self).spec_line_endings(),
                w0 == old(self).spec_doc_width(),
                c0 == old(self).spec_cursor(),
                off0 == old(self).spec_line_offset(),
                pos <= s0.len(),
                si <= pos,
                old(self).offset_in_range(),
                old(self).doc_has_cursor_position(),
                old(self).cursor_position_at(pos as int),
                blank == spec_blank(
                    s0[if pos > 0 {
                        pos as int - 1
                    } else {
                        0
                    }]@,
                ),
                run_left(s0, pos as int, blank) == pos - si + run_left(s0, si as int, blank),
                (self.spec_cursor(), self.spec_line_offset()) == left_walk(
                    le0,
                    w0,
                    c0,
                    off0,
                    (pos - si) as nat,
                ),
            decreases si,
        {
            let boundary = {
                let c = self.doc.index(si - 1);
                let b = is_blank(c);
                if blank {
                    !b
                } else {
                    b
                }
            };
            if boundary {
                proof {
                    assert(run_left(s0, si as int, blank) == 0);
                    assert(run_left(s0, pos as int, blank) == pos - si);
                    assert(old(self).cursor_position_at(pos as int) && (
                    self.spec_cursor(),
                    self.spec_line_offset(),
                    ) == left_walk(le0, w0, c0, off0, run_left(s0, pos as int, blank) as nat));
                }
                return ;
            }
            let ghost c_prev = self.spec_cursor();
            let ghost off_prev = self.spec_line_offset();
            self.move_left_clamped();
            proof {
                assert((self.spec_cursor(), self.spec_line_offset()) == left_guarded(
                    le0,
                    w0,
                    c_prev,
                    off_prev,
                ));
                lemma_left_walk_snoc(le0, w0, c0, off0, (pos - si) as nat);
                assert(run_left(s0, si as int, blank) == 1 + run_left(s0, si - 1, blank));
            }
            si = si - 1;
        }
        proof {
            assert(run_left(s0, 0, blank) == 0);
            assert(old(self).cursor_position_at(pos as int) && (
            self.spec_cursor(),
            self.spec_line_offset(),
            ) == left_walk(le0, w0, c0, off0, run_left(s0, pos as int, blank) as nat));
        }
    }

    /// Scan forwards from the cursor: consume a run of blanks, or a run
    /// of non-blanks, one cursor step right per element, stopping at the
    /// first boundary element.
    fn word_right(&mut self)
        requires
            old(self).wf(),
        ensures
            final(self).wf(),
            old(self).same_but_cursor(*final(self)),
            if old(self).offset_in_range() && old(self).doc_has_cursor_position() {
                exists|pos: int|
                    #[trigger] old(self).cursor_position_at(pos) && (
                    final(self).spec_cursor(),
                    final(self).spec_line_offset(),
                    ) == right_walk(
                        old(self).spec_line_endings(),
                        old(self).spec_doc_width(),
                        old(self).spec_doc_height(),
                        old(self).spec_cursor(),
                        old(self).spec_line_offset(),
                        run_right(
                            old(self).spec_doc(),
                            pos,
                            spec_blank(old(self).spec_doc()[pos]@),
                        ) as nat,
                    )
            } else {
                final(self).spec_cursor() == old(self).spec_cursor() && final(self).spec_line_offset() == old(self).spec_line_offset()
            },
    {
        if !self.offset_ok() {
            return ;
        }
        let pos = match self.try_cursor_absolute_position() {
            Some(p) => p,
            None => {
                return ;
            },
        };
        let blank = is_blank(self.doc.index(pos));
        let ghost s0 = self.spec_doc();
        let ghost le0 = self.spec_line_endings();
        let ghost w0 = self.spec_doc_width();
        let ghost h0 = self.spec_doc_height();
        let ghost c0 = self.spec_cursor();
        let ghost off0 = self.spec_line_offset();
        let mut si = pos;
        let ghost doc_len = self.spec_doc().len();
        while si < self.doc.len()
            invariant
                self.wf(),
                old(self).same_but_cursor(*self),
                s0 == old(self).spec_doc(),
                le0 == old(self).spec_line_endings(),
                w0 == old(self).spec_doc_width(),
                h0 == old(self).spec_doc_height(),
                c0 == old(self).spec_cursor(),
                off0 == old(self).spec_line_offset(),
                doc_len == self.spec_doc().len(),
                pos <= si <= doc_len,
                old(self).offset_in_range(),
                old(self).doc_has_cursor_position(),
                old(self).cursor_position_at(pos as int),
                blank == spec_blank(s0[pos as int]@),
                run_right(s0, pos as int, blank) == si - pos + run_right(s0, si as int, blank),
                (self.spec_cursor(), self.spec_line_offset()) == right_walk(
                    le0,
                    w0,
                    h0,
                    c0,
                    off0,
                    (si - pos) as nat,
                ),
            decreases doc_len - si,
        {
            let boundary = {
                let c = self.doc.index(si);
                let b = is_blank(c);
                if blank {
                    !b
                } else {
                    b
                }
            };
            if boundary {
                proof {
                    assert(run_right(s0, si as int, blank) == 0);
                    assert(run_right(s0, pos as int, blank) == si - pos);
                    assert(old(self).cursor_position_at(pos as int) && (
                    self.spec_cursor(),
                    self.spec_line_offset(),
                    ) == right_walk(
                        le0,
                        w0,
                        h0,
                        c0,
                        off0,
                        run_right(s0, pos as int, blank) as nat,
                    ));
                }
                return ;
            }
            let ghost c_prev = self.spec_cursor();
            let ghost off_prev = self.spec_line_offset();
            self.move_right_clamped();
            proof {
                assert((self.spec_cursor(), self.spec_line_offset()) == right_guarded(
                    le0,
                    w0,
                    h0,
                    c_prev,
                    off_prev,
                ));
                lemma_right_walk_snoc(le0, w0, h0, c0, off0, (si - pos) as nat);
                assert(run_right(s0, si as int, blank) == 1 + run_right(s0, si + 1, blank));
            }
            si = si + 1;
        }
        proof {
            assert(run_right(s0, doc_len as int, blank) == 0);
            assert(old(self).cursor_position_at(pos as int) && (
            self.spec_cursor(),
            self.spec_line_offset(),
            ) == right_walk(le0, w0, h0, c0, off0, run_right(s0, pos as int, blank) as nat));
        }
    }

    /// Scan forward from `start` for the next line break; its distance
    /// from `start`, or 0 when the document holds none after `start`.
    fn scan_line_len(&self, start: usize) -> (r: usize)
        requires
            self.wf(),
            start <= self.spec_doc().len(),
        ensures
            r as int == (match crate::line::find_newline(self.spec_doc(), start as int) {
                Some(a) => a - start,
                None => 0int,
            }),
            r <= self.spec_doc().len(),
    {
        let n = self.doc.len();
        let mut j = start;
        while j < n
            invariant
                self.wf(),
                n == self.spec_doc().len(),
                start <= j <= n,
                crate::line::find_newline(self.spec_doc(), j as int) == crate::line::find_newline(
                    self.spec_doc(),
                    start as int,
                ),
            decreases n - j,
        {
            let c = self.doc.index(j);
            if c.check_newline() {
                return j - start;
            }
            j = j + 1;
        }
        0
    }

    /// Nothing but the document buffer was touched.
    proof fn lemma_doc_edit_frame(self, other: Editor)
        requires
            self.highlight == other.highlight,
            self.editor_screen == other.editor_screen,
            self.log_screen == other.log_screen,
            self.log_buffer == other.log_buffer,
            self.line_endings == other.line_endings,
        ensures
            self.spec_highlight() == other.spec_highlight(),
            self.spec_logs() == other.spec_logs(),
            self.spec_line_endings() == other.spec_line_endings(),
            self.spec_cursor() == other.spec_cursor(),
            self.spec_line_offset() == other.spec_line_offset(),
            self.spec_doc_grid() == other.spec_doc_grid(),
            self.spec_log_grid() == other.spec_log_grid(),
            self.spec_doc_width() == other.spec_doc_width(),
            self.spec_doc_height() == other.spec_doc_height(),
    {
    }

    /// The absolute document index under the cursor.  The cursor must sit
    /// on an element; the editor clamps it before asking.
    pub fn get_cursor_absolute_position(&self) -> (idx: usize)
        requires
            self.wf(),
            self.spec_line_offset() + self.spec_doc_height() <= usize::MAX,
            self.doc_has_cursor_position(),
        ensures
            idx < self.spec_doc().len(),
            line_of(self.spec_doc(), idx as int) == self.spec_cursor().1
                + self.spec_line_offset(),
            col_of(self.spec_doc(), idx as int) == self.spec_cursor().0,
    {
        let (x, y) = self.editor_screen.cursor();
        let line = y + self.editor_screen.line_offset();
        self.doc.line_column_to_idx(x, line)
    }

    /// Repaint the visible part of the document into the back buffer and
    /// refresh the line-length cache: the grid and the cache become a
    /// function of the document, the highlights, the viewport offset and
    /// the grid drawn over — nothing else.
    pub fn draw_doc(&mut self)
        requires
            old(self).wf(),
            old(self).spec_doc().len() < usize::MAX,
            old(self).offset_in_range(),
        ensures
            final(self).wf(),
            final(self).spec_doc() == old(self).spec_doc(),
            final(self).spec_highlight() == old(self).spec_highlight(),
            final(self).spec_logs() == old(self).spec_logs(),
            final(self).spec_log_grid() == old(self).spec_log_grid(),
            final(self).spec_cursor() == old(self).spec_cursor(),
            final(self).spec_line_offset() == old(self).spec_line_offset(),
            final(self).spec_doc_width() == old(self).spec_doc_width(),
            final(self).spec_doc_height() == old(self).spec_doc_height(),
            (final(self).spec_doc_grid(), final(self).spec_line_endings()) == old(self).spec_draw_doc_on(old(self).spec_doc_grid()),
    {
        let ghost s = self.spec_doc();
        let offset = self.editor_screen.line_offset();
        self.line_endings.clear();
        let prev = if offset > 0 {
            offset - 1
        } else {
            0
        };
        let above = match self.doc.try_line_column_to_idx(0, prev) {
            Some(a0) => {
                proof {
                    lemma_start_unique(s, prev as int, a0 as int);
                }
                self.scan_line_len(a0)
            },
            None => 0,
        };
        self.line_endings.push(above + 1);
        let start = match self.doc.try_line_column_to_idx(0, offset) {
            Some(st) => {
                proof {
                    lemma_start_unique(s, offset as int, st as int);
                }
                st
            },
            None => {
                proof {
                    assert(self.spec_line_endings() =~= seq![(above + 1) as usize]);
                }
                return ;
            },
        };
        let doc_len = self.doc.len();
        let width = self.editor_screen.width();
        let height = self.editor_screen.height();
        let ghost cs = self.spec_doc_chars();
        let ghost hl = self.spec_highlight();
        let ghost target = doc_rows(
            cs,
            hl,
            start as int,
            0,
            0,
            0,
            0,
            self.spec_doc_grid(),
            width as int,
            height as int,
            seq![(above + 1) as usize],
        );
        let mut i: usize = 0;
        let mut col: usize = 0;
        let ghost mut gcol: int = 0;
        let mut row: usize = 0;
        let mut in_line: usize = 0;
        while start + i < doc_len && row <= height
            invariant
                self.wf(),
                self.doc == old(self).doc,
                self.highlight == old(self).highlight,
                self.log_screen == old(self).log_screen,
                self.log_buffer == old(self).log_buffer,
                cs == self.spec_doc_chars(),
                hl == self.spec_highlight(),
                s == self.spec_doc(),
                doc_len == self.spec_doc().len(),
                doc_len < usize::MAX,
                start <= doc_len,
                width == self.spec_doc_width(),
                height == self.spec_doc_height(),
                height < usize::MAX,
                self.spec_cursor() == old(self).spec_cursor(),
                self.spec_line_offset() == old(self).spec_line_offset(),
                start + i <= doc_len,
                in_line <= i,
                row <= height + 1,
                (gcol < width && col as int == gcol) || (gcol >= width && col == width),
                forall|k: int|
                    0 <= k < self.spec_line_endings().len()
                        ==> #[trigger] self.spec_line_endings()[k] >= 1,
                target == doc_rows(
                    cs,
                    hl,
                    start as int,
                    i as int,
                    gcol,
                    row as int,
                    in_line as int,
                    self.spec_doc_grid(),
                    width as int,
                    height as int,
                    self.spec_line_endings(),
                ),
            decreases doc_len - (start + i),
        {
            let elem_idx = start + i;
            let g = {
                let c = self.doc.index(elem_idx);
                c.clone()
            };
            proof {
                assert(cs[elem_idx as int] == g@);
            }
            if g.check_newline() {
                self.line_endings.push(in_line + 1);
                col = 0;
                proof {
                    gcol = 0;
                }
                row = row + 1;
                in_line = 0;
            } else {
                let tag = self.highlight.get(elem_idx);
                let color = hl_to_color(tag);
                let wg = crate::screen::grapheme_width(g.as_str());
                let mut one: Vec<String> = Vec::new();
                one.push(g);
                self.editor_screen.draw_clusters(col, row, &one, Style(color, default_bg()));
                proof {
                    assert(one.deep_view() =~= seq![cs[elem_idx as int]]);
                    gcol = gcol + wg;
                }
                if wg >= width - col {
                    col = width;
                } else {
                    col = col + wg;
                }
                in_line = in_line + 1;
            }
            i = i + 1;
        }
        proof {
            assert(target == (self.spec_doc_grid(), self.spec_line_endings()));
        }
    }

    /// Repaint the log screen: the most recent log lines, newest in the
    /// top row, each truncated to the screen width.
    pub fn draw_logs(&mut self)
        requires
            old(self).wf(),
        ensures
            final(self).wf(),
            final(self).spec_doc() == old(self).spec_doc(),
            final(self).spec_highlight() == old(self).spec_highlight(),
            final(self).spec_logs() == old(self).spec_logs(),
            final(self).spec_line_endings() == old(self).spec_line_endings(),
            final(self).spec_doc_grid() == old(self).spec_doc_grid(),
            final(self).spec_cursor() == old(self).spec_cursor(),
            final(self).spec_line_offset() == old(self).spec_line_offset(),
            final(self).spec_doc_width() == old(self).spec_doc_width(),
            final(self).spec_doc_height() == old(self).spec_doc_height(),
            final(self).spec_log_grid() == logs_rows(
                old(self).spec_logs().map_values(|t: String| t@),
                0,
                old(self).spec_log_grid(),
                old(self).spec_log_width() as int,
                old(self).spec_log_height() as int,
            ),
    {
        let ghost logsv = self.spec_logs().map_values(|t: String| t@);
        let n = self.log_buffer.len();
        let h = self.log_screen.height();
        let w = self.log_screen.width();
        let ghost target = logs_rows(logsv, 0, self.spec_log_grid(), w as int, h as int);
        let mut k: usize = 0;
        while k < n && k <= h
            invariant
                self.wf(),
                self.doc == old(self).doc,
                self.highlight == old(self).highlight,
                self.editor_screen == old(self).editor_screen,
                self.log_buffer == old(self).log_buffer,
                self.line_endings == old(self).line_endings,
                logsv == self.spec_logs().map_values(|t: String| t@),
                n == logsv.len(),
                k <= n,
                w == self.log_screen.spec_width(),
                h == self.log_screen.spec_height(),
                target == logs_rows(logsv, k as int, self.spec_log_grid(), w as int, h as int),
            decreases n - k,
        {
            let line = &self.log_buffer[n - 1 - k];
            let ls = line.as_str();
            let ll = ls.unicode_len();
            if ll > w {
                let t = ls.substring_char(0, w);
                self.log_screen.draw(0, k, t, Style(Color::Red, Color::Black));
                proof {
                    assert(ls@.subrange(0, w as int) =~= logsv[logsv.len() - 1 - k].take(
                        w as int,
                    ));
                }
            } else {
                self.log_screen.draw(0, k, ls, Style(Color::Red, Color::Black));
            }
            k = k + 1;
        }
        proof {
            assert(target == (self.spec_log_grid()));
        }
    }

    /// Clear the document screen to the redraw background and repaint the
    /// visible document over it.
    pub fn redraw_doc(&mut self)
        requires
            old(self).wf(),
            old(self).spec_doc().len() < usize::MAX,
            old(self).offset_in_range(),
        ensures
            final(self).wf(),
            final(self).spec_doc() == old(self).spec_doc(),
            final(self).spec_highlight() == old(self).spec_highlight(),
            final(self).spec_logs() == old(self).spec_logs(),
            final(self).spec_log_grid() == old(self).spec_log_grid(),
            final(self).spec_cursor() == old(self).spec_cursor(),
            final(self).spec_line_offset() == old(self).spec_line_offset(),
            final(self).spec_doc_width() == old(self).spec_doc_width(),
            final(self).spec_doc_height() == old(self).spec_doc_height(),
            (final(self).spec_doc_grid(), final(self).spec_line_endings()) == old(self).spec_draw_doc_on(cleared_grid(old(self).spec_doc_grid().len(), Color::DarkYellow)),
    {
        self.editor_screen.clear(Color::DarkYellow);
        proof {
            assert(self.spec_doc_grid() =~= cleared_grid(
                old(self).spec_doc_grid().len(),
                Color::DarkYellow,
            ));
            assert(self.spec_draw_doc_on(self.spec_doc_grid()) == old(self).spec_draw_doc_on(
                self.spec_doc_grid(),
            )) by {
                lemma_draw_doc_deterministic(*self, *old(self));
            }
        }
        self.draw_doc();
    }

    /// Clear the log screen to black and repaint the log lines over it.
    pub fn redraw_logs(&mut self)
        requires
            old(self).wf(),
        ensures
            final(self).wf(),
            final(self).spec_doc() == old(self).spec_doc(),
            final(self).spec_highlight() == old(self).spec_highlight(),
            final(self).spec_logs() == old(self).spec_logs(),
            final(self).spec_line_endings() == old(self).spec_line_endings(),
            final(self).spec_doc_grid() == old(self).spec_doc_grid(),
            final(self).spec_cursor() == old(self).spec_cursor(),
            final(self).spec_line_offset() == old(self).spec_line_offset(),
            final(self).spec_log_grid() == logs_rows(
                old(self).spec_logs().map_values(|t: String| t@),
                0,
                cleared_grid(old(self).spec_log_grid().len(), Color::Black),
                old(self).spec_log_width() as int,
                old(self).spec_log_height() as int,
            ),
    {
        self.log_screen.clear(Color::Black);
        proof {
            assert(self.spec_log_grid() =~= cleared_grid(
                old(self).spec_log_grid().len(),
                Color::Black,
            ));
        }
        self.draw_logs();
    }

    /// What repainting the document draws, over a given starting grid:
    /// first the length of the line just above the viewport is cached,
    /// then the visible lines are painted element by element and their
    /// lengths cached, newline included.
    pub open spec fn spec_draw_doc_on(self, grid0: Seq<crate::screen::CellView>) -> (
        Seq<crate::screen::CellView>,
        Seq<usize>,
    ) {
        let s = self.spec_doc();
        let off = self.spec_line_offset() as int;
        let prev: int = if off > 0 {
            off - 1
        } else {
            0
        };
        let above: int = if has_line_start(s, prev) {
            let a0 = line_start_idx(s, prev);
            match crate::line::find_newline(s, a0) {
                Some(a) => a - a0,
                None => 0,
            }
        } else {
            0
        };
        let endings0 = seq![((above + 1) as usize)];
        if has_line_start(s, off) {
            doc_rows(
                self.spec_doc_chars(),
                self.spec_highlight(),
                line_start_idx(s, off),
                0,
                0,
                0,
                0,
                grid0,
                self.spec_doc_width() as int,
                self.spec_doc_height() as int,
                endings0,
            )
        } else {
            (grid0, endings0)
        }
    }
}

/// A grid of `len` cells, all spaces in `(col, col)`: what `clear`
/// leaves behind.
pub open spec fn cleared_grid(len: nat, col: Color) -> Seq<crate::screen::CellView> {
    Seq::new(len, |i: int| Some((Style(col, col), seq![' '])))
}

/// Whether line `line` has a first column, and where it starts.
pub open spec fn has_line_start(s: Seq<String>, line: int) -> bool {
    exists|i: int|
        0 <= i < s.len() && #[trigger] line_of(s, i) == line && col_of(s, i) == 0
}

pub open spec fn line_start_idx(s: Seq<String>, line: int) -> int {
    choose|i: int|
        0 <= i < s.len() && #[trigger] line_of(s, i) == line && col_of(s, i) == 0
}

/// A found `(0, line)` index is the unique start of that line.
proof fn lemma_start_unique(s: Seq<String>, line: int, i: int)
    requires
        0 <= i < s.len(),
        line_of(s, i) == line,
        col_of(s, i) == 0,
    ensures
        has_line_start(s, line),
        line_start_idx(s, line) == i,
{
    assert(has_line_start(s, line));
    let j = line_start_idx(s, line);
    if i <= j {
        crate::line::lemma_same_line_col(s, i, j);
    } else {
        crate::line::lemma_same_line_col(s, j, i);
    }
}

/// The grid and the line cache after laying out the document elements
/// from `start + i` on, at column `col` of row `row`, `in_line` elements
/// into the current line.  A newline caches the line's length and opens
/// the next row; any other element is painted with its highlight colour
/// and advances the column by its display width.  Layout stops below the
/// grid (rows keep counting one row past it for the cache).
pub open spec fn doc_rows(
    cs: Seq<Seq<char>>,
    hl: Seq<(usize, usize, usize)>,
    start: int,
    i: int,
    col: int,
    row: int,
    in_line: int,
    grid: Seq<crate::screen::CellView>,
    width: int,
    height: int,
    endings: Seq<usize>,
) -> (Seq<crate::screen::CellView>, Seq<usize>)
    decreases cs.len() - (start + i),
{
    if start + i < 0 || start + i >= cs.len() || row > height {
        (grid, endings)
    } else {
        let g = cs[start + i];
        if g == seq!['\n'] {
            doc_rows(
                cs,
                hl,
                start,
                i + 1,
                0,
                row + 1,
                0,
                grid,
                width,
                height,
                endings.push(((in_line + 1) as usize)),
            )
        } else {
            let color = spec_hl_color(crate::hl::hl_lookup(hl, start + i));
            let grid2 = render_clusters(
                grid,
                width,
                col,
                row,
                seq![g],
                Style(color, Color::Rgb(59, 56, 73)),
            );
            let grid3 = if row < height {
                grid2
            } else {
                grid
            };
            doc_rows(cs, hl, start, i + 1, col + width_of(g), row, in_line + 1, grid3, width, height, endings)
        }
    }
}

/// The log grid after painting row `k` and below: row `k` shows the
/// `k`-th most recent log line, truncated to the width.
pub open spec fn logs_rows(
    logs: Seq<Seq<char>>,
    k: int,
    grid: Seq<crate::screen::CellView>,
    width: int,
    height: int,
) -> Seq<crate::screen::CellView>
    decreases logs.len() - k,
{
    if k < 0 || k >= logs.len() || k > height {
        grid
    } else {
        let line = logs[logs.len() - 1 - k];
        let shown = if line.len() > width {
            line.take(width)
        } else {
            line
        };
        let grid2 = if k < height {
            render_clusters(
                grid,
                width,
                0,
                k,
                crate::screen::graphemes_of(shown),
                Style(Color::Red, Color::Black),
            )
        } else {
            grid
        };
        logs_rows(logs, k + 1, grid2, width, height)
    }
}

/// Laying out the document writes the same cells and caches the same line
/// lengths whatever grid it runs over; every unwritten cell passes through
/// from the respective base grid.
proof fn lemma_doc_rows_bi(
    cs: Seq<Seq<char>>,
    hl: Seq<(usize, usize, usize)>,
    start: int,
    i: int,
    col: int,
    row: int,
    in_line: int,
    g1: Seq<crate::screen::CellView>,
    g2: Seq<crate::screen::CellView>,
    width: int,
    height: int,
    endings: Seq<usize>,
)
    requires
        g1.len() == g2.len(),
        0 <= col,
        0 <= row,
        0 <= width,
        g1.len() == width * height,
    ensures
        doc_rows(cs, hl, start, i, col, row, in_line, g1, width, height, endings).0.len()
            == g1.len(),
        doc_rows(cs, hl, start, i, col, row, in_line, g2, width, height, endings).0.len()
            == g2.len(),
        doc_rows(cs, hl, start, i, col, row, in_line, g1, width, height, endings).1 == doc_rows(
            cs,
            hl,
            start,
            i,
            col,
            row,
            in_line,
            g2,
            width,
            height,
            endings,
        ).1,
        forall|p: int|
            0 <= p < g1.len() ==> #[trigger] doc_rows(
                cs,
                hl,
                start,
                i,
                col,
                row,
                in_line,
                g1,
                width,
                height,
                endings,
            ).0[p] == doc_rows(cs, hl, start, i, col, row, in_line, g2, width, height, endings).0[p]
                || (doc_rows(cs, hl, start, i, col, row, in_line, g1, width, height, endings).0[p]
                == g1[p] && doc_rows(
                cs,
                hl,
                start,
                i,
                col,
                row,
                in_line,
                g2,
                width,
                height,
                endings,
            ).0[p] == g2[p]),
    decreases cs.len() - (start + i),
{
    if start + i < 0 || start + i >= cs.len() || row > height {
    } else {
        let g = cs[start + i];
        if g == seq!['\n'] {
            lemma_doc_rows_bi(
                cs,
                hl,
                start,
                i + 1,
                0,
                row + 1,
                0,
                g1,
                g2,
                width,
                height,
                endings.push(((in_line + 1) as usize)),
            );
        } else {
            let color = spec_hl_color(crate::hl::hl_lookup(hl, start + i));
            let style = Style(color, Color::Rgb(59, 56, 73));
            if row < height {
                let n = g1.len() as int;
                assert((row + 1) * width <= n) by (nonlinear_arith)
                    requires
                        0 <= row < height,
                        0 <= width,
                        n == width * height,
                ;
                crate::screen::lemma_render_clusters_bi(g1, g2, width, col, row, seq![g], style);
                let r1 = render_clusters(g1, width, col, row, seq![g], style);
                let r2 = render_clusters(g2, width, col, row, seq![g], style);
                lemma_doc_rows_bi(
                    cs,
                    hl,
                    start,
                    i + 1,
                    col + width_of(g),
                    row,
                    in_line + 1,
                    r1,
                    r2,
                    width,
                    height,
                    endings,
                );
            } else {
                lemma_doc_rows_bi(
                    cs,
                    hl,
                    start,
                    i + 1,
                    col + width_of(g),
                    row,
                    in_line + 1,
                    g1,
                    g2,
                    width,
                    height,
                    endings,
                );
            }
        }
    }
}

/// Repainting the document over the back buffer it itself produced
/// changes nothing: with no edits, highlight changes or offset changes in
/// between, a second `draw_doc` fills the back buffer with identical
/// contents and rebuilds the identical line cache.
pub proof fn lemma_draw_doc_idempotent(e: Editor, g: Seq<crate::screen::CellView>)
    requires
        g.len() == e.spec_doc_width() * e.spec_doc_height(),
    ensures
        ({
            let first = e.spec_draw_doc_on(g);
            let second = e.spec_draw_doc_on(first.0);
            second == first
        }),
{
    let s = e.spec_doc();
    let off = e.spec_line_offset() as int;
    if has_line_start(s, off) {
        let start = line_start_idx(s, off);
        let prev: int = if off > 0 {
            off - 1
        } else {
            0
        };
        let above: int = if has_line_start(s, prev) {
            let a0 = line_start_idx(s, prev);
            match crate::line::find_newline(s, a0) {
                Some(a) => a - a0,
                None => 0,
            }
        } else {
            0
        };
        let endings0 = seq![((above + 1) as usize)];
        let cs = e.spec_doc_chars();
        let hl = e.spec_highlight();
        let w = e.spec_doc_width() as int;
        let h = e.spec_doc_height() as int;
        let first = doc_rows(cs, hl, start, 0, 0, 0, 0, g, w, h, endings0);
        lemma_doc_rows_bi(cs, hl, start, 0, 0, 0, 0, g, g, w, h, endings0);
        lemma_doc_rows_bi(cs, hl, start, 0, 0, 0, 0, g, first.0, w, h, endings0);
        let second = doc_rows(cs, hl, start, 0, 0, 0, 0, first.0, w, h, endings0);
        assert(second.0 =~= first.0);
    }
}

/// Repainting depends only on the document, the highlights, the offset,
/// the grid size and the grid painted over: two editors that agree on
/// those repaint identically.  In particular, repainting twice with no
/// edits in between fills the back buffer with identical contents.
pub proof fn lemma_draw_doc_deterministic(a: Editor, b: Editor)
    requires
        a.spec_doc() == b.spec_doc(),
        a.spec_highlight() == b.spec_highlight(),
        a.spec_line_offset() == b.spec_line_offset(),
        a.spec_doc_width() == b.spec_doc_width(),
        a.spec_doc_height() == b.spec_doc_height(),
    ensures
        forall|g: Seq<crate::screen::CellView>| #[trigger] a.spec_draw_doc_on(g)
            == b.spec_draw_doc_on(g),
{
}

/// The colour a highlight tag is painted with.
pub open spec fn spec_hl_color(hl: Option<usize>) -> Color {
    match hl {
        Some(t) => if t == 0 {
            Color::Rgb(129, 200, 190)
        } else if t == 10 {
            Color::Rgb(239, 159, 118)
        } else if t == 14 {
            Color::Rgb(234, 153, 156)
        } else if t == 11 {
            Color::Rgb(231, 130, 132)
        } else if t == 13 {
            Color::Rgb(244, 184, 228)
        } else if t == 4 {
            Color::Rgb(229, 200, 144)
        } else if t == 20 {
            Color::Rgb(202, 158, 230)
        } else {
            Color::White
        },
        None => Color::White,
    }
}

pub fn hl_to_color(hl: Option<usize>) -> (c: Color)
    ensures
        c == spec_hl_color(hl),
{
    match hl {
        Some(t) => if t == 0 {
            Color::Rgb(129, 200, 190)
        } else if t == 10 {
            Color::Rgb(239, 159, 118)
        } else if t == 14 {
            Color::Rgb(234, 153, 156)
        } else if t == 11 {
            Color::Rgb(231, 130, 132)
        } else if t == 13 {
            Color::Rgb(244, 184, 228)
        } else if t == 4 {
            Color::Rgb(229, 200, 144)
        } else if t == 20 {
            Color::Rgb(202, 158, 230)
        } else {
            Color::White
        },
        None => Color::White,
    }
}

} // verus!
