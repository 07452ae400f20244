//! Text pictures of a maze: a ceiling line, then for each row a line of
//! cells and right walls and a line of bottom walls.

use crate::maze::{lemma_grid_size, Maze};
use vstd::prelude::*;

verus! {

pub const BLANK: u8 = 32;
pub const DASH: u8 = 45;
pub const BAR: u8 = 124;
pub const STAR: u8 = 42;
pub const START_MARK: u8 = 83;
pub const END_MARK: u8 = 69;
pub const NEWLINE: u8 = 10;

/// Whether a flag is drawn: flags are drawn when set, or when clear in the
/// inverted style.
pub open spec fn drawn(flag: bool, inverted: bool) -> bool {
    flag != inverted
}

/// `c` pairs of a blank and a dash.
pub open spec fn ceiling(c: int) -> Seq<u8>
    decreases c,
{
    if c <= 0 {
        Seq::empty()
    } else {
        ceiling(c - 1) + seq![BLANK, DASH]
    }
}

/// The glyph of cell `(x, y)`: `S` and `E` mark the endpoints in the plain
/// style; otherwise `*` shows a cell marked in `cells`.
pub open spec fn cell_byte(m: Maze, x: int, y: int, inverted: bool) -> u8 {
    if !inverted && x == m.start_pos.0 && y == m.start_pos.1 {
        START_MARK
    } else if !inverted && x == m.end_pos.0 && y == m.end_pos.1 {
        END_MARK
    } else if drawn(m.cells@[y * m.width + x], inverted) {
        STAR
    } else {
        BLANK
    }
}

pub open spec fn wall_byte(m: Maze, x: int, y: int, inverted: bool) -> u8 {
    if drawn(m.r_walls@[y * m.width + x], inverted) {
        BAR
    } else {
        BLANK
    }
}

pub open spec fn floor_byte(m: Maze, x: int, y: int, inverted: bool) -> u8 {
    if drawn(m.b_walls@[y * m.width + x], inverted) {
        DASH
    } else {
        BLANK
    }
}

/// The first `c` cells of row `y`, each followed by its right wall.
pub open spec fn cell_run(m: Maze, y: int, c: int, inverted: bool) -> Seq<u8>
    decreases c,
{
    if c <= 0 {
        Seq::empty()
    } else {
        cell_run(m, y, c - 1, inverted) + seq![
            cell_byte(m, c - 1, y, inverted),
            wall_byte(m, c - 1, y, inverted),
        ]
    }
}

/// The first `c` bottom walls of row `y`, each followed by a blank.
pub open spec fn floor_run(m: Maze, y: int, c: int, inverted: bool) -> Seq<u8>
    decreases c,
{
    if c <= 0 {
        Seq::empty()
    } else {
        floor_run(m, y, c - 1, inverted) + seq![floor_byte(m, c - 1, y, inverted), BLANK]
    }
}

pub open spec fn row_lines(m: Maze, y: int, inverted: bool) -> Seq<u8> {
    seq![BAR] + cell_run(m, y, m.width as int, inverted) + seq![NEWLINE, BLANK] + floor_run(
        m,
        y,
        m.width as int,
        inverted,
    ) + seq![NEWLINE]
}

/// The lines of the first `k` rows.
pub open spec fn rows(m: Maze, k: int, inverted: bool) -> Seq<u8>
    decreases k,
{
    if k <= 0 {
        Seq::empty()
    } else {
        rows(m, k - 1, inverted) + row_lines(m, k - 1, inverted)
    }
}

pub open spec fn picture(m: Maze, inverted: bool) -> Seq<u8> {
    ceiling(m.width as int) + seq![NEWLINE] + rows(m, m.height as int, inverted)
}

/// Where the inverted style writes the marker of cell `(x, y)`: after the
/// ceiling line, each row takes `4 * width + 4` bytes (its cell line and its
/// floor line), and the cell sits after the left `|` at twice its column.
pub open spec fn marker_index(m: Maze, x: int, y: int) -> int {
    2 * m.width + 1 + (4 * m.width + 4) * y + 1 + x * 2
}

proof fn lemma_run_lengths(m: Maze, y: int, c: int, inverted: bool)
    requires
        c >= 0,
    ensures
        cell_run(m, y, c, inverted).len() == 2 * c,
        floor_run(m, y, c, inverted).len() == 2 * c,
        ceiling(c).len() == 2 * c,
    decreases c,
{
    if c > 0 {
        lemma_run_lengths(m, y, c - 1, inverted);
    }
}

proof fn lemma_rows_length(m: Maze, k: int, inverted: bool)
    requires
        k >= 0,
    ensures
        rows(m, k, inverted).len() == k * (4 * m.width + 4),
    decreases k,
{
    if k > 0 {
        lemma_rows_length(m, k - 1, inverted);
        lemma_run_lengths(m, k - 1, m.width as int, inverted);
        assert(row_lines(m, k - 1, inverted).len() == 4 * m.width + 4);
        assert(k * (4 * m.width + 4) == (k - 1) * (4 * m.width + 4) + (4 * m.width + 4))
            by (nonlinear_arith);
    } else {
        assert(k * (4 * m.width + 4) == 0) by (nonlinear_arith)
            requires
                k == 0,
        ;
    }
}

proof fn lemma_cell_run_at(m: Maze, y: int, c: int, x: int, inverted: bool)
    requires
        0 <= x < c,
    ensures
        cell_run(m, y, c, inverted).len() == 2 * c,
        cell_run(m, y, c, inverted)[2 * x] == cell_byte(m, x, y, inverted),
    decreases c,
{
    lemma_run_lengths(m, y, c, inverted);
    if x < c - 1 {
        lemma_cell_run_at(m, y, c - 1, x, inverted);
        lemma_run_lengths(m, y, c - 1, inverted);
    }
}

proof fn lemma_rows_prefix(m: Maze, y: int, k: int, j: int, inverted: bool)
    requires
        0 <= y < k,
        0 <= j < (y + 1) * (4 * m.width + 4),
    ensures
        rows(m, k, inverted)[j] == rows(m, y + 1, inverted)[j],
    decreases k,
{
    lemma_rows_length(m, y + 1, inverted);
    if k > y + 1 {
        lemma_rows_prefix(m, y, k - 1, j, inverted);
        lemma_rows_length(m, k - 1, inverted);
        assert((y + 1) * (4 * m.width + 4) <= (k - 1) * (4 * m.width + 4)) by (nonlinear_arith)
            requires
                y + 1 <= k - 1,
                m.width >= 0,
        ;
    }
}

/// `marker_index` points at the glyph of cell `(x, y)` in the picture.
pub proof fn lemma_marker_on_cell(m: Maze, x: int, y: int, inverted: bool)
    requires
        m.wf(),
        0 <= x < m.width,
        0 <= y < m.height,
    ensures
        0 <= marker_index(m, x, y) < picture(m, inverted).len(),
        picture(m, inverted)[marker_index(m, x, y)] == cell_byte(m, x, y, inverted),
{
    let w = m.width as int;
    let h = m.height as int;
    let row_len = 4 * w + 4;
    lemma_run_lengths(m, y, w, inverted);
    lemma_rows_length(m, h, inverted);
    lemma_rows_length(m, y, inverted);
    lemma_cell_run_at(m, y, w, x, inverted);
    let j = row_len * y + 1 + 2 * x;
    assert(row_len * y + row_len == (y + 1) * row_len) by (nonlinear_arith);
    assert(j < (y + 1) * row_len);
    assert((y + 1) * row_len <= h * row_len) by (nonlinear_arith)
        requires
            y + 1 <= h,
            row_len >= 0,
    ;
    assert(y * row_len == row_len * y) by (nonlinear_arith);
    lemma_rows_prefix(m, y, h, j, inverted);
    assert(rows(m, y + 1, inverted)[j] == row_lines(m, y, inverted)[1 + 2 * x]);
    assert(row_lines(m, y, inverted)[1 + 2 * x] == cell_run(m, y, w, inverted)[2 * x]);
}

impl Maze {
    fn render_grid(&self, inverted: bool) -> (r: Vec<u8>)
        requires
            self.wf(),
        ensures
            r@ == picture(*self, inverted),
    {
        let w = self.width;
        let h = self.height;
        let ghost m = *self;
        let mut buf: Vec<u8> = Vec::new();
        let mut c: usize = 0;
        while c < w
            invariant
                c <= w,
                buf@ == ceiling(c as int),
            decreases w - c,
        {
            buf.push(BLANK);
            buf.push(DASH);
            c = c + 1;
            proof {
                assert(buf@ =~= ceiling(c as int));
            }
        }
        buf.push(NEWLINE);
        let ghost head = buf@;
        proof {
            assert(buf@ =~= ceiling(w as int) + seq![NEWLINE] + rows(m, 0, inverted));
        }
        let mut row: usize = 0;
        while row < h
            invariant
                self.wf(),
                m == *self,
                w == self.width,
                h == self.height,
                row <= h,
                head == ceiling(w as int) + seq![NEWLINE],
                buf@ == head + rows(m, row as int, inverted),
            decreases h - row,
        {
            let ghost before = buf@;
            buf.push(BAR);
            let mut col: usize = 0;
            proof {
                assert(buf@ =~= before + seq![BAR] + cell_run(m, row as int, 0, inverted));
            }
            while col < w
                invariant
                    self.wf(),
                    m == *self,
                    w == self.width,
                    h == self.height,
                    row < h,
                    col <= w,
                    buf@ == before + seq![BAR] + cell_run(m, row as int, col as int, inverted),
                decreases w - col,
            {
                let i = self.index(col, row);
                let cell = if !inverted && col == self.start_pos.0 as usize && row
                    == self.start_pos.1 as usize {
                    START_MARK
                } else if !inverted && col == self.end_pos.0 as usize && row == self.end_pos.1 as usize {
                    END_MARK
                } else if self.cells[i] != inverted {
                    STAR
                } else {
                    BLANK
                };
                let wall = if self.r_walls[i] != inverted {
                    BAR
                } else {
                    BLANK
                };
                let ghost prev = buf@;
                buf.push(cell);
                buf.push(wall);
                proof {
                    assert(cell == cell_byte(m, col as int, row as int, inverted));
                    assert(wall == wall_byte(m, col as int, row as int, inverted));
                    assert(buf@ =~= before + seq![BAR] + cell_run(
                        m,
                        row as int,
                        col + 1,
                        inverted,
                    ));
                }
                col = col + 1;
            }
            buf.push(NEWLINE);
            buf.push(BLANK);
            let ghost mid = buf@;
            col = 0;
            proof {
                assert(buf@ =~= mid + floor_run(m, row as int, 0, inverted));
            }
            while col < w
                invariant
                    self.wf(),
                    m == *self,
                    w == self.width,
                    h == self.height,
                    row < h,
                    col <= w,
                    buf@ == mid + floor_run(m, row as int, col as int, inverted),
                decreases w - col,
            {
                let i = self.index(col, row);
                let floor = if self.b_walls[i] != inverted {
                    DASH
                } else {
                    BLANK
                };
                buf.push(floor);
                buf.push(BLANK);
                proof {
                    assert(floor == floor_byte(m, col as int, row as int, inverted));
                    assert(buf@ =~= mid + floor_run(m, row as int, col + 1, inverted));
                }
                col = col + 1;
            }
            buf.push(NEWLINE);
            proof {
                assert(buf@ =~= head + rows(m, row + 1, inverted));
            }
            row = row + 1;
        }
        buf
    }

    /// The maze as text: a ceiling of dashes, then per row a line with `|`
    /// at the left edge, each cell (`S` and `E` at the endpoints, `*` where
    /// `cells` is marked) followed by `|` where its right wall stands, and a
    /// line with `-` under each cell whose bottom wall stands.
    pub fn render(&self) -> (r: Vec<u8>)
        requires
            self.wf(),
        ensures
            r@ == picture(*self, false),
    {
        self.render_grid(false)
    }

    /// The same frame in the inverted style: flags are drawn where they are
    /// clear, and `S` and `E` then replace the glyphs of the two endpoint
    /// cells, at their `marker_index` (which `lemma_marker_on_cell` shows is
    /// where each cell's glyph stands).
    pub fn z_render(&self) -> (r: Vec<u8>)
        requires
            self.wf(),
        ensures
            r@ == picture(*self, true).update(
                marker_index(*self, self.start_pos.0 as int, self.start_pos.1 as int),
                START_MARK,
            ).update(marker_index(*self, self.end_pos.0 as int, self.end_pos.1 as int), END_MARK),
    {
        let mut buf = self.render_grid(true);
        let w = self.width;
        let h = self.height;
        let ghost m = *self;
        proof {
            lemma_run_lengths(m, 0, w as int, true);
            lemma_rows_length(m, h as int, true);
            lemma_grid_size(w as int, h as int);
            let sx = self.start_pos.0 as int;
            let sy = self.start_pos.1 as int;
            let ex = self.end_pos.0 as int;
            let ey = self.end_pos.1 as int;
            assert(marker_index(m, sx, sy) < buf@.len()) by (nonlinear_arith)
                requires
                    buf@.len() == 2 * w + 1 + h * (4 * w + 4),
                    marker_index(m, sx, sy) == 2 * w + 1 + (4 * w + 4) * sy + 1 + sx * 2,
                    0 <= sx < w,
                    0 <= sy < h,
            ;
            assert(marker_index(m, ex, ey) < buf@.len()) by (nonlinear_arith)
                requires
                    buf@.len() == 2 * w + 1 + h * (4 * w + 4),
                    marker_index(m, ex, ey) == 2 * w + 1 + (4 * w + 4) * ey + 1 + ex * 2,
                    0 <= ex < w,
                    0 <= ey < h,
            ;
            assert((4 * w + 4) * sy <= (4 * 256 + 4) * 256) by (nonlinear_arith)
                requires
                    w <= 256,
                    0 <= sy < 256,
            ;
            assert((4 * w + 4) * ey <= (4 * 256 + 4) * 256) by (nonlinear_arith)
                requires
                    w <= 256,
                    0 <= ey < 256,
            ;
        }
        let start_index = 2 * w + 1 + (4 * w + 4) * (self.start_pos.1 as usize) + 1
            + self.start_pos.0 as usize * 2;
        let end_index = 2 * w + 1 + (4 * w + 4) * (self.end_pos.1 as usize) + 1
            + self.end_pos.0 as usize * 2;
        buf.set(start_index, START_MARK);
        buf.set(end_index, END_MARK);
        buf
    }
}

} // verus!
