//! Text pictures of bare grids of flags, one text line (or two) per grid
//! row: the views that the printing experiments draw.

use crate::grid::{ix, lemma_ix_bounds};
use crate::render::{BAR, BLANK, NEWLINE, STAR};
use vstd::prelude::*;

verus! {

pub const UNDERSCORE: u8 = 95;

/// `*` for a clear flag, a blank for a set one.
pub open spec fn mark(flag: bool) -> u8 {
    if flag {
        BLANK
    } else {
        STAR
    }
}

/// `bar` for a clear flag, a blank for a set one.
pub open spec fn edge(flag: bool, bar: u8) -> u8 {
    if flag {
        BLANK
    } else {
        bar
    }
}

/// The marks of the first `c` flags of row `y`.
pub open spec fn mark_run(f: Seq<bool>, w: int, y: int, c: int) -> Seq<u8>
    decreases c,
{
    if c <= 0 {
        Seq::empty()
    } else {
        mark_run(f, w, y, c - 1).push(mark(f[ix(w, c - 1, y)]))
    }
}

/// The first `k` rows of marks, each ended by a newline.
pub open spec fn mark_lines(f: Seq<bool>, w: int, k: int) -> Seq<u8>
    decreases k,
{
    if k <= 0 {
        Seq::empty()
    } else {
        mark_lines(f, w, k - 1) + mark_run(f, w, k - 1, w).push(NEWLINE)
    }
}

/// Row `y` of cells with their right edges, two bytes per cell.
pub open spec fn framed_run(marks: Seq<bool>, right: Seq<bool>, w: int, y: int, c: int) -> Seq<u8>
    decreases c,
{
    if c <= 0 {
        Seq::empty()
    } else {
        framed_run(marks, right, w, y, c - 1) + seq![
            mark(marks[ix(w, c - 1, y)]),
            edge(right[ix(w, c - 1, y)], BAR),
        ]
    }
}

/// Row `y` of bottom edges, two underscores (or blanks) per cell.
pub open spec fn base_run(below: Seq<bool>, w: int, y: int, c: int) -> Seq<u8>
    decreases c,
{
    if c <= 0 {
        Seq::empty()
    } else {
        base_run(below, w, y, c - 1) + seq![
            edge(below[ix(w, c - 1, y)], UNDERSCORE),
            edge(below[ix(w, c - 1, y)], UNDERSCORE),
        ]
    }
}

pub open spec fn framed_lines(
    marks: Seq<bool>,
    right: Seq<bool>,
    below: Seq<bool>,
    w: int,
    k: int,
) -> Seq<u8>
    decreases k,
{
    if k <= 0 {
        Seq::empty()
    } else {
        framed_lines(marks, right, below, w, k - 1) + framed_run(marks, right, w, k - 1, w).push(
            NEWLINE,
        ) + base_run(below, w, k - 1, w).push(NEWLINE)
    }
}

/// Row `y` where only clear cells are drawn, as `*` followed by their
/// right edge; a set cell is one blank.
pub open spec fn sparse_run(marks: Seq<bool>, right: Seq<bool>, w: int, y: int, c: int) -> Seq<u8>
    decreases c,
{
    if c <= 0 {
        Seq::empty()
    } else if marks[ix(w, c - 1, y)] {
        sparse_run(marks, right, w, y, c - 1).push(BLANK)
    } else {
        sparse_run(marks, right, w, y, c - 1) + seq![STAR, edge(right[ix(w, c - 1, y)], BAR)]
    }
}

pub open spec fn sparse_lines(
    marks: Seq<bool>,
    right: Seq<bool>,
    below: Seq<bool>,
    w: int,
    k: int,
) -> Seq<u8>
    decreases k,
{
    if k <= 0 {
        Seq::empty()
    } else {
        sparse_lines(marks, right, below, w, k - 1) + sparse_run(marks, right, w, k - 1, w).push(
            NEWLINE,
        ) + base_run(below, w, k - 1, w).push(NEWLINE)
    }
}

/// A `width` × `height` grid of flags as rows of marks: `*` where a flag is
/// clear, a blank where it is set, each row ended by a newline.
pub fn mark_rows(flags: &Vec<bool>, width: usize, height: usize) -> (r: Vec<u8>)
    requires
        flags@.len() == width * height,
    ensures
        r@ == mark_lines(flags@, width as int, height as int),
{
    let n = flags.len();
    let mut out: Vec<u8> = Vec::new();
    let mut y: usize = 0;
    while y < height
        invariant
            flags@.len() == width * height,
            n == width * height,
            y <= height,
            out@ == mark_lines(flags@, width as int, y as int),
        decreases height - y,
    {
        let ghost before = out@;
        let mut x: usize = 0;
        while x < width
            invariant
                flags@.len() == width * height,
                n == width * height,
                y < height,
                x <= width,
                out@ == before + mark_run(flags@, width as int, y as int, x as int),
            decreases width - x,
        {
            proof {
                lemma_ix_bounds(width as int, height as int, x as int, y as int);
            }
            let g = if flags[y * width + x] {
                BLANK
            } else {
                STAR
            };
            out.push(g);
            x = x + 1;
            proof {
                assert(out@ =~= before + mark_run(flags@, width as int, y as int, x as int));
            }
        }
        out.push(NEWLINE);
        y = y + 1;
        proof {
            assert(out@ =~= mark_lines(flags@, width as int, y as int));
        }
    }
    out
}

fn push_base_run(out: &mut Vec<u8>, below: &Vec<bool>, width: usize, height: usize, y: usize)
    requires
        below@.len() == width * height,
        y < height,
    ensures
        final(out)@ == old(out)@ + base_run(below@, width as int, y as int, width as int).push(
            NEWLINE,
        ),
{
    let n = below.len();
    let ghost before = out@;
    let mut x: usize = 0;
    while x < width
        invariant
            below@.len() == width * height,
            n == width * height,
            y < height,
            x <= width,
            out@ == before + base_run(below@, width as int, y as int, x as int),
        decreases width - x,
    {
        proof {
            lemma_ix_bounds(width as int, height as int, x as int, y as int);
        }
        let g = if below[y * width + x] {
            BLANK
        } else {
            UNDERSCORE
        };
        out.push(g);
        out.push(g);
        x = x + 1;
        proof {
            assert(out@ =~= before + base_run(below@, width as int, y as int, x as int));
        }
    }
    out.push(NEWLINE);
    proof {
        assert(out@ =~= before + base_run(below@, width as int, y as int, width as int).push(
            NEWLINE,
        ));
    }
}

/// Each row as two lines: every cell as a mark and its right edge (`|` where
/// the flag is clear), then every bottom edge as two underscores where the
/// flag is clear.
pub fn framed_rows(
    marks: &Vec<bool>,
    right: &Vec<bool>,
    below: &Vec<bool>,
    width: usize,
    height: usize,
) -> (r: Vec<u8>)
    requires
        marks@.len() == width * height,
        right@.len() == width * height,
        below@.len() == width * height,
    ensures
        r@ == framed_lines(marks@, right@, below@, width as int, height as int),
{
    let n = marks.len();
    let mut out: Vec<u8> = Vec::new();
    let mut y: usize = 0;
    while y < height
        invariant
            n == width * height,
            marks@.len() == width * height,
            right@.len() == width * height,
            below@.len() == width * height,
            y <= height,
            out@ == framed_lines(marks@, right@, below@, width as int, y as int),
        decreases height - y,
    {
        let ghost before = out@;
        let mut x: usize = 0;
        while x < width
            invariant
                n == width * height,
                marks@.len() == width * height,
                right@.len() == width * height,
                y < height,
                x <= width,
                out@ == before + framed_run(marks@, right@, width as int, y as int, x as int),
            decreases width - x,
        {
            proof {
                lemma_ix_bounds(width as int, height as int, x as int, y as int);
            }
            let i = y * width + x;
            let g = if marks[i] {
                BLANK
            } else {
                STAR
            };
            let e = if right[i] {
                BLANK
            } else {
                BAR
            };
            out.push(g);
            out.push(e);
            x = x + 1;
            proof {
                assert(out@ =~= before + framed_run(marks@, right@, width as int, y as int, x as int));
            }
        }
        out.push(NEWLINE);
        let ghost mid = out@;
        push_base_run(&mut out, below, width, height, y);
        y = y + 1;
        proof {
            assert(out@ =~= framed_lines(marks@, right@, below@, width as int, y as int));
        }
    }
    out
}

/// Each row as two lines: a clear cell as `*` and its right edge (`|` where
/// that flag is clear), a set cell as one blank; then the bottom edges as in
/// `framed_rows`.
pub fn sparse_rows(
    marks: &Vec<bool>,
    right: &Vec<bool>,
    below: &Vec<bool>,
    width: usize,
    height: usize,
) -> (r: Vec<u8>)
    requires
        marks@.len() == width * height,
        right@.len() == width * height,
        below@.len() == width * height,
    ensures
        r@ == sparse_lines(marks@, right@, below@, width as int, height as int),
{
    let n = marks.len();
    let mut out: Vec<u8> = Vec::new();
    let mut y: usize = 0;
    while y < height
        invariant
            n == width * height,
            marks@.len() == width * height,
            right@.len() == width * height,
            below@.len() == width * height,
            y <= height,
            out@ == sparse_lines(marks@, right@, below@, width as int, y as int),
        decreases height - y,
    {
        let ghost before = out@;
        let mut x: usize = 0;
        while x < width
            invariant
                n == width * height,
                marks@.len() == width * height,
                right@.len() == width * height,
                y < height,
                x <= width,
                out@ == before + sparse_run(marks@, right@, width as int, y as int, x as int),
            decreases width - x,
        {
            proof {
                lemma_ix_bounds(width as int, height as int, x as int, y as int);
            }
            let i = y * width + x;
            if marks[i] {
                out.push(BLANK);
            } else {
                let e = if right[i] {
                    BLANK
                } else {
                    BAR
                };
                out.push(STAR);
                out.push(e);
            }
            x = x + 1;
            proof {
                assert(out@ =~= before + sparse_run(marks@, right@, width as int, y as int, x as int));
            }
        }
        out.push(NEWLINE);
        push_base_run(&mut out, below, width, height, y);
        y = y + 1;
        proof {
            assert(out@ =~= sparse_lines(marks@, right@, below@, width as int, y as int));
        }
    }
    out
}

} // verus!
