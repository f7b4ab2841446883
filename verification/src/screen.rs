//! A fixed-size character grid with a back buffer.
//!
//! Cells hold a styled grapheme cluster; `None` marks the continuation
//! column of a wide cluster.  `draw` writes clusters with their display
//! widths, `clear` resets the grid, and `present_ops` turns the back
//! buffer into the painting commands that the terminal layer carries out.

use vstd::prelude::*;

use unicode_segmentation::UnicodeSegmentation;
use unicode_width::UnicodeWidthStr;

verus! {

/// The colours the editor paints with.
#[derive(Debug, Copy, Clone, PartialEq, Eq, Structural)]
pub enum Color {
    White,
    Black,
    Red,
    DarkYellow,
    Rgb(u8, u8, u8),
}

/// Foreground and background colour of a cell.
#[derive(Debug, Copy, Clone, PartialEq, Eq, Structural)]
pub struct Style(pub Color, pub Color);

/// The default background of the document screen.
pub fn default_bg() -> (c: Color)
    ensures
        c == Color::Rgb(59, 56, 73),
{
    Color::Rgb(59, 56, 73)
}

/// One cell of the grid, as the contracts see it: a style and the
/// characters of one grapheme cluster, or a continuation column.
pub type CellView = Option<(Style, Seq<char>)>;

/// What `str::graphemes` splits a string into: its grapheme clusters, in
/// order.  The segmentation depends on the characters alone.
pub uninterp spec fn graphemes_of(s: Seq<char>) -> Seq<Seq<char>>;

/// What `UnicodeWidthStr::width` answers for one cluster: its display
/// width in columns.  The width depends on the characters alone.
pub uninterp spec fn width_of(g: Seq<char>) -> usize;

/// Relies on unicode_segmentation's `str::graphemes` (extended clusters):
/// it splits a string into its grapheme clusters; an empty string has
/// none.
#[verifier::external_body]
fn split_graphemes(text: &str) -> (r: Vec<String>)
    ensures
        r.deep_view() == graphemes_of(text@),
        text@.len() == 0 ==> r.deep_view().len() == 0,
{
    text.graphemes(true).map(|g| g.to_string()).collect()
}

/// Relies on unicode_width's `UnicodeWidthStr::width`: the display width
/// of a string in columns.
#[verifier::external_body]
pub(crate) fn grapheme_width(g: &str) -> (w: usize)
    ensures
        w == width_of(g@),
{
    UnicodeWidthStr::width(g)
}

/// Continuation columns: `None` in the cells `[from, to)` of row `y`.
/// The caller clips `to` at the grid width.
pub open spec fn blank_run(
    grid: Seq<CellView>,
    width: int,
    from: int,
    to: int,
    y: int,
) -> Seq<CellView>
    decreases to - from,
{
    if from >= to {
        grid
    } else {
        blank_run(grid.update(y * width + from, None), width, from + 1, to, y)
    }
}

/// The grid after writing `clusters` at cell `(x, y)`: each cluster of
/// width `w >= 1` fills its cell and blanks `w - 1` continuation cells,
/// a zero-width cluster is prefixed with a space, and everything at or
/// beyond the grid width is clipped.
pub open spec fn render_clusters(
    grid: Seq<CellView>,
    width: int,
    x: int,
    y: int,
    clusters: Seq<Seq<char>>,
    style: Style,
) -> Seq<CellView>
    decreases clusters.len(),
{
    if clusters.len() == 0 {
        grid
    } else if x >= width {
        grid
    } else {
        let g = clusters.first();
        let w = width_of(g) as int;
        if w > 0 {
            let head = grid.update(y * width + x, Some((style, g)));
            let filled = blank_run(head, width, x + 1, vstd::math::min(x + w, width), y);
            render_clusters(filled, width, x + w, y, clusters.drop_first(), style)
        } else {
            let head = grid.update(y * width + x, Some((style, seq![' '] + g)));
            render_clusters(head, width, x + 1, y, clusters.drop_first(), style)
        }
    }
}

/// One painting command for the terminal layer: move to an absolute cell,
/// change the colours, print one cluster, hide or show the cursor.
#[derive(Debug, PartialEq)]
pub enum PaintOp {
    MoveTo(usize, usize),
    SetColors(Color, Color),
    Print(String),
    Hide,
    Show,
}

/// Continuation blanking writes the same cells whatever grid it runs
/// over; every other cell passes through from the respective base grid.
pub proof fn lemma_blank_run_bi(
    g1: Seq<CellView>,
    g2: Seq<CellView>,
    width: int,
    from: int,
    to: int,
    y: int,
)
    requires
        g1.len() == g2.len(),
        0 <= y,
        0 <= from,
        0 <= width,
        to <= width,
        (y + 1) * width <= g1.len(),
    ensures
        blank_run(g1, width, from, to, y).len() == g1.len(),
        blank_run(g2, width, from, to, y).len() == g2.len(),
        forall|p: int|
            0 <= p < g1.len() ==> #[trigger] blank_run(g1, width, from, to, y)[p] == blank_run(
                g2,
                width,
                from,
                to,
                y,
            )[p] || (blank_run(g1, width, from, to, y)[p] == g1[p] && blank_run(
                g2,
                width,
                from,
                to,
                y,
            )[p] == g2[p]),
    decreases to - from,
{
    if from < to {
        let q = y * width + from;
        let n = g1.len() as int;
        assert(0 <= q < n) by (nonlinear_arith)
            requires
                q == y * width + from,
                0 <= y,
                0 <= from < to <= width,
                (y + 1) * width <= n,
        ;
        let h1 = g1.update(q, None);
        let h2 = g2.update(q, None);
        lemma_blank_run_bi(h1, h2, width, from + 1, to, y);
    }
}

/// Laying out the same clusters writes the same cells whatever grid it
/// runs over; every other cell passes through from the respective base
/// grid.
pub proof fn lemma_render_clusters_bi(
    g1: Seq<CellView>,
    g2: Seq<CellView>,
    width: int,
    x: int,
    y: int,
    clusters: Seq<Seq<char>>,
    style: Style,
)
    requires
        g1.len() == g2.len(),
        0 <= y,
        0 <= x,
        0 <= width,
        (y + 1) * width <= g1.len(),
    ensures
        render_clusters(g1, width, x, y, clusters, style).len() == g1.len(),
        render_clusters(g2, width, x, y, clusters, style).len() == g2.len(),
        forall|p: int|
            0 <= p < g1.len() ==> #[trigger] render_clusters(g1, width, x, y, clusters, style)[p]
                == render_clusters(g2, width, x, y, clusters, style)[p] || (render_clusters(
                g1,
                width,
                x,
                y,
                clusters,
                style,
            )[p] == g1[p] && render_clusters(g2, width, x, y, clusters, style)[p] == g2[p]),
    decreases clusters.len(),
{
    if clusters.len() == 0 || x >= width {
    } else {
        let g = clusters.first();
        let w = width_of(g) as int;
        let q = y * width + x;
        let n = g1.len() as int;
        assert(0 <= q < n) by (nonlinear_arith)
            requires
                q == y * width + x,
                0 <= y,
                0 <= x < width,
                (y + 1) * width <= n,
        ;
        if w > 0 {
            let h1 = g1.update(q, Some((style, g)));
            let h2 = g2.update(q, Some((style, g)));
            let stop = vstd::math::min(x + w, width);
            lemma_blank_run_bi(h1, h2, width, x + 1, stop, y);
            let b1 = blank_run(h1, width, x + 1, stop, y);
            let b2 = blank_run(h2, width, x + 1, stop, y);
            lemma_render_clusters_bi(b1, b2, width, x + w, y, clusters.drop_first(), style);
        } else {
            let h1 = g1.update(q, Some((style, seq![' '] + g)));
            let h2 = g2.update(q, Some((style, seq![' '] + g)));
            lemma_render_clusters_bi(h1, h2, width, x + 1, y, clusters.drop_first(), style);
        }
    }
}

/// A painting command as the contracts see it: coordinates as integers
/// and the printed cluster as its characters.
pub enum PaintOpView {
    MoveTo(int, int),
    SetColors(Color, Color),
    Print(Seq<char>),
    Hide,
    Show,
}

pub open spec fn op_view(op: PaintOp) -> PaintOpView {
    match op {
        PaintOp::MoveTo(x, y) => PaintOpView::MoveTo(x as int, y as int),
        PaintOp::SetColors(f, b) => PaintOpView::SetColors(f, b),
        PaintOp::Print(t) => PaintOpView::Print(t@),
        PaintOp::Hide => PaintOpView::Hide,
        PaintOp::Show => PaintOpView::Show,
    }
}

pub open spec fn ops_view(ops: Seq<PaintOp>) -> Seq<PaintOpView> {
    ops.map_values(|op: PaintOp| op_view(op))
}

/// The commands that paint the cells from index `p` on: move to each
/// occupied cell, switch colours only when the style changes from the one
/// painted last, print the cluster, and skip continuation cells.
pub open spec fn present_cells(
    grid: Seq<CellView>,
    width: int,
    ox: int,
    oy: int,
    p: int,
    last: Style,
) -> Seq<PaintOpView>
    decreases grid.len() - p,
{
    if p < 0 || p >= grid.len() || width <= 0 {
        Seq::<PaintOpView>::empty()
    } else {
        match grid[p] {
            None => present_cells(grid, width, ox, oy, p + 1, last),
            Some((st, t)) => {
                let colour_ops = if st == last {
                    Seq::<PaintOpView>::empty()
                } else {
                    seq![PaintOpView::SetColors(st.0, st.1)]
                };
                seq![PaintOpView::MoveTo(ox + p % width, oy + p / width)] + colour_ops + seq![
                    PaintOpView::Print(t),
                ] + present_cells(grid, width, ox, oy, p + 1, st)
            },
        }
    }
}

/// A fixed-size grid of `width x height` cells placed at `(offset_x,
/// offset_y)` on the terminal, with a cursor position (in grid
/// coordinates) and the viewport's first visible line.
pub struct Screen {
    width: usize,
    height: usize,
    offset_x: usize,
    offset_y: usize,
    buf: Vec<Option<(Style, String)>>,
    cursor_x: usize,
    cursor_y: usize,
    line_offset: usize,
    bg: Color,
}

impl Screen {
    /// The grid contents, cell by cell, row-major.
    pub closed spec fn grid(self) -> Seq<CellView> {
        self.buf@.map_values(
            |c: Option<(Style, String)>|
                match c {
                    Option::None => None,
                    Option::Some((st, t)) => Some((st, t@)),
                },
        )
    }

    pub closed spec fn spec_width(self) -> nat {
        self.width as nat
    }

    pub closed spec fn spec_height(self) -> nat {
        self.height as nat
    }

    pub closed spec fn spec_offset(self) -> (nat, nat) {
        (self.offset_x as nat, self.offset_y as nat)
    }

    /// Cursor position, in grid coordinates.
    pub closed spec fn spec_cursor(self) -> (nat, nat) {
        (self.cursor_x as nat, self.cursor_y as nat)
    }

    pub closed spec fn spec_line_offset(self) -> nat {
        self.line_offset as nat
    }

    pub closed spec fn spec_bg(self) -> Color {
        self.bg
    }

    /// The grid is exactly `width x height` cells, both sides are
    /// positive, the cursor is inside the grid, and the absolute
    /// coordinates fit the machine.
    pub closed spec fn wf(self) -> bool {
        &&& 1 <= self.width
        &&& 1 <= self.height
        &&& self.buf@.len() == self.width * self.height
        &&& self.cursor_x < self.width
        &&& self.cursor_y < self.height
        &&& self.offset_x + self.width <= usize::MAX
        &&& self.offset_y + self.height <= usize::MAX
    }

    /// A fresh grid filled with spaces in `(White, bg)`, cursor at the
    /// origin, viewport at the top.
    pub fn new(width: usize, height: usize, x: usize, y: usize, bg: Color) -> (s: Screen)
        requires
            1 <= width,
            1 <= height,
            width * height <= usize::MAX,
            x + width <= usize::MAX,
            y + height <= usize::MAX,
        ensures
            s.wf(),
            s.spec_width() == width,
            s.spec_height() == height,
            s.spec_offset() == (x as nat, y as nat),
            s.spec_cursor() == (0nat, 0nat),
            s.spec_line_offset() == 0,
            s.spec_bg() == bg,
            s.grid().len() == width * height,
            forall|i: int|
                0 <= i < s.grid().len() ==> #[trigger] s.grid()[i] == Some(
                    (Style(Color::White, bg), seq![' ']),
                ),
    {
        let size = width * height;
        let mut buf: Vec<Option<(Style, String)>> = Vec::with_capacity(size);
        let mut i: usize = 0;
        while i < size
            invariant
                i <= size,
                buf@.len() == i,
                forall|j: int|
                    0 <= j < i ==> (#[trigger] buf@[j] matches Some((st, t)) && st == Style(
                        Color::White,
                        bg,
                    ) && t@ == seq![' ']),
            decreases size - i,
        {
            let cell = String::from_str(" ");
            proof {
                reveal_strlit(" ");
                assert(cell@ =~= seq![' ']);
            }
            buf.push(Some((Style(Color::White, bg), cell)));
            i = i + 1;
        }
        let s = Screen {
            width,
            height,
            offset_x: x,
            offset_y: y,
            buf,
            cursor_x: 0,
            cursor_y: 0,
            line_offset: 0,
            bg,
        };
        proof {
            assert(forall|i: int|
                0 <= i < s.grid().len() ==> #[trigger] s.grid()[i] == Some(
                    (Style(Color::White, bg), seq![' ']),
                ));
        }
        s
    }

    /// Fill every cell with a space in `(col, col)`.
    pub fn clear(&mut self, col: Color)
        requires
            old(self).wf(),
        ensures
            final(self).wf(),
            final(self).grid().len() == old(self).grid().len(),
            forall|i: int|
                0 <= i < final(self).grid().len() ==> #[trigger] final(self).grid()[i] == Some(
                    (Style(col, col), seq![' ']),
                ),
            final(self).spec_width() == old(self).spec_width(),
            final(self).spec_height() == old(self).spec_height(),
            final(self).spec_offset() == old(self).spec_offset(),
            final(self).spec_cursor() == old(self).spec_cursor(),
            final(self).spec_line_offset() == old(self).spec_line_offset(),
            final(self).spec_bg() == old(self).spec_bg(),
    {
        let n = self.buf.len();
        let mut i: usize = 0;
        while i < n
            invariant
                i <= n,
                n == self.buf@.len(),
                self.width == old(self).width,
                self.height == old(self).height,
                self.offset_x == old(self).offset_x,
                self.offset_y == old(self).offset_y,
                self.cursor_x == old(self).cursor_x,
                self.cursor_y == old(self).cursor_y,
                self.line_offset == old(self).line_offset,
                self.bg == old(self).bg,
                old(self).wf(),
                forall|j: int|
                    0 <= j < i ==> (#[trigger] self.buf@[j] matches Some((st, t)) && st == Style(
                        col,
                        col,
                    ) && t@ == seq![' ']),
            decreases n - i,
        {
            let cell = String::from_str(" ");
            proof {
                reveal_strlit(" ");
                assert(cell@ =~= seq![' ']);
            }
            self.buf.set(i, Some((Style(col, col), cell)));
            i = i + 1;
        }
    }

    /// Move the cursor, clamped to the grid.
    pub fn set_cursor(&mut self, x: usize, y: usize)
        requires
            old(self).wf(),
        ensures
            final(self).wf(),
            final(self).spec_cursor() == (
                (if x < old(self).spec_width() {
                    x as nat
                } else {
                    (old(self).spec_width() - 1) as nat
                }),
                (if y < old(self).spec_height() {
                    y as nat
                } else {
                    (old(self).spec_height() - 1) as nat
                }),
            ),
            final(self).grid() == old(self).grid(),
            final(self).spec_width() == old(self).spec_width(),
            final(self).spec_height() == old(self).spec_height(),
            final(self).spec_offset() == old(self).spec_offset(),
            final(self).spec_line_offset() == old(self).spec_line_offset(),
            final(self).spec_bg() == old(self).spec_bg(),
    {
        self.cursor_x = if x < self.width {
            x
        } else {
            self.width - 1
        };
        self.cursor_y = if y < self.height {
            y
        } else {
            self.height - 1
        };
    }

    /// Read one cell of the back buffer.
    pub fn cell(&self, x: usize, y: usize) -> (c: &Option<(Style, String)>)
        requires
            self.wf(),
            x < self.spec_width(),
            y < self.spec_height(),
        ensures
            match c {
                Some((st, t)) => self.grid()[y * self.spec_width() + x] == Some((*st, t@)),
                None => self.grid()[y * self.spec_width() + x] is None,
            },
    {
        proof {
            assert((y as int) * (self.width as int) + x < (self.width as int) * (
            self.height as int)) by (nonlinear_arith)
                requires
                    0 <= y as int,
                    0 <= x,
                    0 < self.width as int,
                    (y as int) < self.height as int,
                    (x as int) < self.width as int,
            ;
            assert(self.buf.len() == self.buf@.len());
        }
        &self.buf[y * self.width + x]
    }

    /// Cursor position, in grid coordinates.
    pub fn cursor(&self) -> (c: (usize, usize))
        ensures
            (c.0 as nat, c.1 as nat) == self.spec_cursor(),
            self.wf() ==> c.0 < self.spec_width() && c.1 < self.spec_height(),
    {
        (self.cursor_x, self.cursor_y)
    }

    pub fn height(&self) -> (h: usize)
        ensures
            h == self.spec_height(),
    {
        self.height
    }

    pub fn width(&self) -> (w: usize)
        ensures
            w == self.spec_width(),
    {
        self.width
    }

    /// Number of cells in the grid.
    pub fn size(&self) -> (n: usize)
        requires
            self.wf(),
        ensures
            n == self.spec_width() * self.spec_height(),
    {
        proof {
            assert(self.buf.len() == self.buf@.len());
        }
        self.width * self.height
    }

    /// The viewport's first visible line.
    pub fn line_offset(&self) -> (o: usize)
        ensures
            o == self.spec_line_offset(),
    {
        self.line_offset
    }

    /// Scroll the viewport down one line.
    pub fn inc_offset(&mut self)
        requires
            old(self).spec_line_offset() < usize::MAX,
        ensures
            final(self).spec_line_offset() == old(self).spec_line_offset() + 1,
            final(self).wf() == old(self).wf(),
            final(self).grid() == old(self).grid(),
            final(self).spec_width() == old(self).spec_width(),
            final(self).spec_height() == old(self).spec_height(),
            final(self).spec_offset() == old(self).spec_offset(),
            final(self).spec_cursor() == old(self).spec_cursor(),
            final(self).spec_bg() == old(self).spec_bg(),
    {
        self.line_offset = self.line_offset + 1;
    }

    /// Write the clusters starting at cell `(x, y)`.  A cluster of width
    /// `w >= 1` takes one cell and `w - 1` continuation cells; a
    /// zero-width cluster is shown behind a space in a single cell.
    /// Writes beyond the grid are clipped.
    pub fn draw_clusters(&mut self, x: usize, y: usize, clusters: &Vec<String>, style: Style)
        requires
            old(self).wf(),
        ensures
            final(self).wf(),
            final(self).grid() == if y < old(self).spec_height() {
                render_clusters(
                    old(self).grid(),
                    old(self).spec_width() as int,
                    x as int,
                    y as int,
                    clusters.deep_view(),
                    style,
                )
            } else {
                old(self).grid()
            },
            final(self).spec_width() == old(self).spec_width(),
            final(self).spec_height() == old(self).spec_height(),
            final(self).spec_offset() == old(self).spec_offset(),
            final(self).spec_cursor() == old(self).spec_cursor(),
            final(self).spec_line_offset() == old(self).spec_line_offset(),
            final(self).spec_bg() == old(self).spec_bg(),
    {
        if y >= self.height {
            return ;
        }
        let ghost w0 = self.width as int;
        let ghost cs = clusters.deep_view();
        let ghost target = render_clusters(old(self).grid(), w0, x as int, y as int, cs, style);
        let n = clusters.len();
        let mut i: usize = 0;
        let mut cx = x;
        let ghost mut gx: int = x as int;
        proof {
            assert(cs.skip(0) =~= cs);
        }
        while i < n
            invariant
                old(self).wf(),
                self.wf(),
                self.width == old(self).width,
                self.height == old(self).height,
                self.offset_x == old(self).offset_x,
                self.offset_y == old(self).offset_y,
                self.cursor_x == old(self).cursor_x,
                self.cursor_y == old(self).cursor_y,
                self.line_offset == old(self).line_offset,
                self.bg == old(self).bg,
                self.buf@.len() == old(self).buf@.len(),
                w0 == self.width as int,
                y < self.height,
                n == cs.len(),
                i <= n,
                cs == clusters.deep_view(),
                x as int <= gx,
                (gx < w0 && cx as int == gx) || (gx >= w0 && cx as int >= w0),
                target == render_clusters(
                    old(self).grid(),
                    w0,
                    x as int,
                    y as int,
                    cs,
                    style,
                ),
                render_clusters(self.grid(), w0, gx, y as int, cs.skip(i as int), style)
                    == target,
            decreases n - i,
        {
            proof {
                assert(cs.skip(i as int).first() == cs[i as int]);
                assert(cs.skip(i as int).drop_first() =~= cs.skip(i + 1));
                assert(cs[i as int] == clusters@[i as int]@);
            }
            if cx >= self.width {
                proof {
                    assert(render_clusters(self.grid(), w0, gx, y as int, cs.skip(i as int), style)
                        == self.grid());
                }
                return ;
            }
            let g = &clusters[i];
            let w = grapheme_width(g.as_str());
            let ghost grid0 = self.grid();
            proof {
                assert((y as int) * w0 + cx < w0 * (self.height as int)) by (nonlinear_arith)
                    requires
                        0 <= y as int,
                        0 <= cx,
                        0 < w0,
                        (y as int) < self.height as int,
                        (cx as int) < w0,
                ;
                assert(self.buf.len() == self.buf@.len());
            }
            if w > 0 {
                self.buf.set(y * self.width + cx, Some((style, g.clone())));
                proof {
                    assert(self.grid() =~= grid0.update(
                        (y as int) * w0 + cx,
                        Some((style, cs[i as int])),
                    ));
                }
                let ghost grid1 = self.grid();
                let ghost stop = vstd::math::min(gx + w, w0);
                let mut j: usize = 1;
                while j < w && cx + j < self.width
                    invariant
                        old(self).wf(),
                        self.wf(),
                        self.width == old(self).width,
                        self.height == old(self).height,
                        self.offset_x == old(self).offset_x,
                        self.offset_y == old(self).offset_y,
                        self.cursor_x == old(self).cursor_x,
                        self.cursor_y == old(self).cursor_y,
                        self.line_offset == old(self).line_offset,
                        self.bg == old(self).bg,
                        self.buf@.len() == old(self).buf@.len(),
                        w0 == self.width as int,
                        y < self.height,
                        cx < self.width,
                        gx == cx as int,
                        stop == vstd::math::min(gx + w, w0),
                        1 <= j,
                        cx + j <= stop || (j >= w && cx + j <= usize::MAX),
                        blank_run(self.grid(), w0, cx + j, stop, y as int) == blank_run(
                            grid1,
                            w0,
                            cx + 1,
                            stop,
                            y as int,
                        ),
                    decreases w - j,
                {
                    proof {
                        assert((y as int) * w0 + cx + j < w0 * (self.height as int))
                            by (nonlinear_arith)
                            requires
                                0 <= y as int,
                                0 <= cx + j,
                                0 < w0,
                                (y as int) < self.height as int,
                                (cx + j as int) < w0,
                        ;
                        assert(self.buf.len() == self.buf@.len());
                    }
                    let ghost gridj = self.grid();
                    self.buf.set(y * self.width + cx + j, None);
                    proof {
                        assert(self.grid() =~= gridj.update((y as int) * w0 + cx + j, None));
                    }
                    j = j + 1;
                }
                proof {
                    assert(blank_run(self.grid(), w0, cx + j, stop, y as int) == self.grid());
                    gx = gx + w;
                }
                if w >= self.width - cx {
                    cx = self.width;
                } else {
                    cx = cx + w;
                }
            } else {
                let mut t = String::from_str(" ");
                t.append(g.as_str());
                proof {
                    reveal_strlit(" ");
                    assert(t@ =~= seq![' '] + cs[i as int]);
                }
                self.buf.set(y * self.width + cx, Some((style, t)));
                proof {
                    assert(self.grid() =~= grid0.update(
                        (y as int) * w0 + cx,
                        Some((style, seq![' '] + cs[i as int])),
                    ));
                    gx = gx + 1;
                }
                cx = cx + 1;
            }
            i = i + 1;
        }
        proof {
            assert(cs.skip(n as int) =~= Seq::<Seq<char>>::empty());
        }
    }

    /// Write `text` starting at cell `(x, y)`: its grapheme clusters with
    /// their display widths, as `draw_clusters` lays them out.
    pub fn draw(&mut self, x: usize, y: usize, text: &str, style: Style)
        requires
            old(self).wf(),
        ensures
            final(self).wf(),
            final(self).grid() == if y < old(self).spec_height() {
                render_clusters(
                    old(self).grid(),
                    old(self).spec_width() as int,
                    x as int,
                    y as int,
                    graphemes_of(text@),
                    style,
                )
            } else {
                old(self).grid()
            },
            final(self).spec_width() == old(self).spec_width(),
            final(self).spec_height() == old(self).spec_height(),
            final(self).spec_offset() == old(self).spec_offset(),
            final(self).spec_cursor() == old(self).spec_cursor(),
            final(self).spec_line_offset() == old(self).spec_line_offset(),
            final(self).spec_bg() == old(self).spec_bg(),
    {
        let clusters = split_graphemes(text);
        self.draw_clusters(x, y, &clusters, style);
    }

    /// The painting commands that flush the back buffer to the terminal:
    /// hide the cursor, paint every occupied cell (switching colours only
    /// between runs of different styles), then restore and show the
    /// cursor.  Painting the same grid twice gives the same commands.
    pub fn present_ops(&self) -> (ops: Vec<PaintOp>)
        requires
            self.wf(),
        ensures
            ops_view(ops@) == seq![
                PaintOpView::SetColors(Color::White, Color::Rgb(59, 56, 73)),
                PaintOpView::Hide,
            ] + present_cells(
                self.grid(),
                self.spec_width() as int,
                self.spec_offset().0 as int,
                self.spec_offset().1 as int,
                0,
                Style(Color::White, Color::Rgb(59, 56, 73)),
            ) + seq![
                PaintOpView::MoveTo(
                    (self.spec_offset().0 + self.spec_cursor().0) as int,
                    (self.spec_offset().1 + self.spec_cursor().1) as int,
                ),
                PaintOpView::Show,
            ],
    {
        let ghost w0 = self.spec_width() as int;
        let ghost ox = self.spec_offset().0 as int;
        let ghost oy = self.spec_offset().1 as int;
        let mut ops: Vec<PaintOp> = Vec::new();
        let mut last = Style(Color::White, default_bg());
        let ghost first = last;
        ops.push(PaintOp::SetColors(last.0, last.1));
        ops.push(PaintOp::Hide);
        let ghost head = ops_view(ops@);
        let ghost total = present_cells(self.grid(), w0, ox, oy, 0, first);
        proof {
            assert(head =~= seq![
                PaintOpView::SetColors(Color::White, Color::Rgb(59, 56, 73)),
                PaintOpView::Hide,
            ]);
        }
        let n = self.buf.len();
        let mut p: usize = 0;
        while p < n
            invariant
                self.wf(),
                n == self.buf@.len(),
                p <= n,
                w0 == self.spec_width() as int,
                ox == self.spec_offset().0 as int,
                oy == self.spec_offset().1 as int,
                total == present_cells(self.grid(), w0, ox, oy, 0, first),
                ops_view(ops@) + present_cells(self.grid(), w0, ox, oy, p as int, last) == head
                    + total,
            decreases n - p,
        {
            let cx = p % self.width;
            let cy = p / self.width;
            proof {
                assert(self.grid().len() == self.buf@.len());
                assert((p as int) / w0 < self.height as int) by (nonlinear_arith)
                    requires
                        0 < w0,
                        0 <= p as int,
                        (p as int) < w0 * (self.height as int),
                ;
            }
            let ghost ops0 = ops@;
            let ghost last0 = last;
            match &self.buf[p] {
                Option::None => {
                    proof {
                        assert(self.grid()[p as int] is None);
                    }
                },
                Option::Some((st, t)) => {
                    proof {
                        assert(self.grid()[p as int] == Some((*st, t@)));
                    }
                    ops.push(PaintOp::MoveTo(self.offset_x + cx, self.offset_y + cy));
                    if !(st.0 == last.0 && st.1 == last.1) {
                        ops.push(PaintOp::SetColors(st.0, st.1));
                        last = Style(st.0, st.1);
                    }
                    ops.push(PaintOp::Print(t.clone()));
                    proof {
                        if *st == last0 {
                            assert(ops_view(ops@) =~= ops_view(ops0) + seq![
                                PaintOpView::MoveTo(ox + (p as int) % w0, oy + (p as int) / w0),
                                PaintOpView::Print(t@),
                            ]);
                        } else {
                            assert(ops_view(ops@) =~= ops_view(ops0) + seq![
                                PaintOpView::MoveTo(ox + (p as int) % w0, oy + (p as int) / w0),
                                PaintOpView::SetColors(st.0, st.1),
                                PaintOpView::Print(t@),
                            ]);
                        }
                        assert(last == *st);
                    }
                },
            }
            p = p + 1;
            proof {
                assert(ops_view(ops@) + present_cells(self.grid(), w0, ox, oy, p as int, last)
                    =~= head + total);
            }
        }
        proof {
            assert(present_cells(self.grid(), w0, ox, oy, n as int, last)
                =~= Seq::<PaintOpView>::empty());
        }
        let ghost ops1 = ops@;
        ops.push(PaintOp::MoveTo(self.offset_x + self.cursor_x, self.offset_y + self.cursor_y));
        ops.push(PaintOp::Show);
        proof {
            assert(ops_view(ops@) =~= ops_view(ops1) + seq![
                PaintOpView::MoveTo(
                    (self.spec_offset().0 + self.spec_cursor().0) as int,
                    (self.spec_offset().1 + self.spec_cursor().1) as int,
                ),
                PaintOpView::Show,
            ]);
            assert(ops_view(ops@) =~= head + total + seq![
                PaintOpView::MoveTo(
                    (self.spec_offset().0 + self.spec_cursor().0) as int,
                    (self.spec_offset().1 + self.spec_cursor().1) as int,
                ),
                PaintOpView::Show,
            ]);
        }
        ops
    }

    /// Scroll the viewport up one line, saturating at the top.
    pub fn dec_offset(&mut self)
        ensures
            final(self).spec_line_offset() == if old(self).spec_line_offset() > 0 {
                (old(self).spec_line_offset() - 1) as nat
            } else {
                0nat
            },
            final(self).wf() == old(self).wf(),
            final(self).grid() == old(self).grid(),
            final(self).spec_width() == old(self).spec_width(),
            final(self).spec_height() == old(self).spec_height(),
            final(self).spec_offset() == old(self).spec_offset(),
            final(self).spec_cursor() == old(self).spec_cursor(),
            final(self).spec_bg() == old(self).spec_bg(),
    {
        if self.line_offset > 0 {
            self.line_offset = self.line_offset - 1;
        }
    }
}

} // verus!
