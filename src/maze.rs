//! The maze record: its size, its wall flags, its two endpoints and the
//! recorded solution, with the checks made on them.

use crate::generate::filled;
use crate::grid::{
    direction_of, ix, lemma_index_cell, offsets, lemma_ix_bounds, step, wall_index, Direction, Layout,
};
use crate::random::draw_below;
use vstd::prelude::*;

verus! {

/// Largest side length: positions are stored as pairs of `u8`.
pub const MAX_SIDE: usize = 256;

/// Why a maze of a requested size cannot be built.
#[derive(Clone, Copy, PartialEq, Eq, Structural, Debug)]
pub enum MazeError {
    /// Fewer than two cells: no two distinct endpoints exist.
    Degenerate,
    /// A side longer than `MAX_SIDE`.
    TooLarge,
}

/// The error, if any, that building a `width` × `height` maze meets.
pub open spec fn size_error(width: int, height: int) -> Option<MazeError> {
    if width * height < 2 {
        Some(MazeError::Degenerate)
    } else if width > MAX_SIDE || height > MAX_SIDE {
        Some(MazeError::TooLarge)
    } else {
        None
    }
}

/// A rectangular maze. `r_walls[y * width + x]` closes the passage from
/// `(x, y)` to its right neighbour, `b_walls[y * width + x]` the one to the
/// cell below; `cells` marks the cells that generation reached.
pub struct Maze {
    pub width: usize,
    pub height: usize,
    pub cells: Vec<bool>,
    pub r_walls: Vec<bool>,
    pub b_walls: Vec<bool>,
    pub ideal_path: Vec<(i8, i8)>,
    pub start_pos: (u8, u8),
    pub end_pos: (u8, u8),
}

impl Maze {
    pub open spec fn layout(&self) -> Layout {
        Layout {
            width: self.width as int,
            height: self.height as int,
            right: self.r_walls@,
            below: self.b_walls@,
        }
    }

    pub open spec fn start(&self) -> (int, int) {
        (self.start_pos.0 as int, self.start_pos.1 as int)
    }

    pub open spec fn end(&self) -> (int, int) {
        (self.end_pos.0 as int, self.end_pos.1 as int)
    }

    /// Sizes agree with the arrays and both endpoints lie on the grid.
    pub open spec fn wf(&self) -> bool {
        &&& 1 <= self.width <= MAX_SIDE
        &&& 1 <= self.height <= MAX_SIDE
        &&& self.cells@.len() == self.width * self.height
        &&& self.r_walls@.len() == self.width * self.height
        &&& self.b_walls@.len() == self.width * self.height
        &&& self.layout().in_grid(self.start())
        &&& self.layout().in_grid(self.end())
    }

    /// `ideal_path` records a shortest walk from the start to the end.
    pub open spec fn is_solved(&self) -> bool {
        exists|p: Seq<Direction>|
            self.layout().is_shortest(self.start(), self.end(), p) && self.ideal_path@ == offsets(p)
    }

    /// Replaying `ideal_path` from the start lands on the end.
    pub open spec fn path_followed(&self) -> bool {
        self.layout().follow(self.start(), self.ideal_path@) == Some(self.end())
    }

    /// A `width` × `height` maze carved into a perfect maze, with two distinct
    /// random endpoints and no solution recorded yet. Sizes with fewer than two
    /// cells, or with a side longer than `MAX_SIDE`, are refused.
    pub fn new(width: usize, height: usize, rng: &mut rand::rngs::StdRng) -> (r: Result<
        Maze,
        MazeError,
    >)
        ensures
            match r {
                Ok(m) => {
                    &&& size_error(width as int, height as int) is None
                    &&& m.wf()
                    &&& m.width == width
                    &&& m.height == height
                    &&& m.layout().is_perfect()
                    &&& m.start() != m.end()
                    &&& m.ideal_path@.len() == 0
                    &&& forall|i: int| 0 <= i < m.cells@.len() ==> m.cells@[i]
                },
                Err(e) => size_error(width as int, height as int) == Some(e),
            },
    {
        if let Some(e) = check_size(width, height) {
            return Err(e);
        }
        proof {
            lemma_grid_size(width as int, height as int);
        }
        let size = width * height;
        let mut maze = Maze {
            width,
            height,
            cells: filled(size, false),
            r_walls: filled(size, true),
            b_walls: filled(size, true),
            ideal_path: Vec::new(),
            start_pos: (0, 0),
            end_pos: (0, 0),
        };
        maze.set_pos(rng);
        maze.gen_maze(rng);
        Ok(maze)
    }

    /// Picks two distinct cells uniformly at random as `start_pos` and
    /// `end_pos`: the start among all cells, the end among the others.
    pub fn set_pos(&mut self, rng: &mut rand::rngs::StdRng)
        requires
            old(self).wf(),
            old(self).width * old(self).height >= 2,
        ensures
            final(self).wf(),
            final(self).start() != final(self).end(),
            final(self).width == old(self).width,
            final(self).height == old(self).height,
            final(self).cells@ == old(self).cells@,
            final(self).r_walls@ == old(self).r_walls@,
            final(self).b_walls@ == old(self).b_walls@,
            final(self).ideal_path@ == old(self).ideal_path@,
    {
        let w = self.width;
        proof {
            lemma_grid_size(w as int, self.height as int);
        }
        let n = w * self.height;
        let s = draw_below(rng, n);
        let e0 = draw_below(rng, n - 1);
        let (start, end) = place_endpoints(w, self.height, s, e0);
        self.start_pos = start;
        self.end_pos = end;
    }

    /// Whether the sizes agree with the arrays and both endpoints lie on the
    /// grid, for callers that build or edit a maze by hand.
    pub fn is_well_formed(&self) -> (r: bool)
        ensures
            r == self.wf(),
    {
        if self.width < 1 || self.width > MAX_SIDE || self.height < 1 || self.height > MAX_SIDE {
            return false;
        }
        proof {
            lemma_grid_size(self.width as int, self.height as int);
        }
        let n = self.width * self.height;
        self.cells.len() == n && self.r_walls.len() == n && self.b_walls.len() == n
            && (self.start_pos.0 as usize) < self.width && (self.start_pos.1 as usize) < self.height
            && (self.end_pos.0 as usize) < self.width && (self.end_pos.1 as usize) < self.height
    }

    /// Index of cell `(x, y)` in the flag arrays: `y * width + x`.
    pub fn index(&self, x: usize, y: usize) -> (r: usize)
        requires
            self.wf(),
            x < self.width,
            y < self.height,
        ensures
            r == ix(self.width as int, x as int, y as int),
            r < self.width * self.height,
    {
        proof {
            lemma_ix_bounds(self.width as int, self.height as int, x as int, y as int);
            lemma_grid_size(self.width as int, self.height as int);
        }
        y * self.width + x
    }

    /// The cell `(x, y)` stored at index `i` of the flag arrays.
    pub fn position(&self, i: usize) -> (r: (usize, usize))
        requires
            self.wf(),
            i < self.width * self.height,
        ensures
            r.0 < self.width,
            r.1 < self.height,
            ix(self.width as int, r.0 as int, r.1 as int) == i,
    {
        let ghost c = lemma_index_cell(self.width as int, self.height as int, i as int);
        (i % self.width, i / self.width)
    }

    /// Every wall flag is set: the state generation starts from.
    pub open spec fn all_walls_closed(&self) -> bool {
        &&& forall|i: int| 0 <= i < self.r_walls@.len() ==> self.r_walls@[i]
        &&& forall|i: int| 0 <= i < self.b_walls@.len() ==> self.b_walls@[i]
    }

    /// The cell one move from `(x, y)` in direction `d`, if it lies on the grid.
    pub(crate) fn neighbor(&self, x: usize, y: usize, d: Direction) -> (r: Option<(usize, usize)>)
        requires
            self.wf(),
            x < self.width,
            y < self.height,
        ensures
            match r {
                Some(q) => self.layout().in_grid(step((x as int, y as int), d)) && (q.0 as int, q.1 as int)
                    == step((x as int, y as int), d),
                None => !self.layout().in_grid(step((x as int, y as int), d)),
            },
    {
        match d {
            Direction::Left => if x > 0 {
                Some((x - 1, y))
            } else {
                None
            },
            Direction::Right => if x + 1 < self.width {
                Some((x + 1, y))
            } else {
                None
            },
            Direction::Up => if y > 0 {
                Some((x, y - 1))
            } else {
                None
            },
            Direction::Down => if y + 1 < self.height {
                Some((x, y + 1))
            } else {
                None
            },
        }
    }

    /// Opens the wall between `(x, y)` and its neighbour in `direction`.
    pub(crate) fn remove_wall(&mut self, x: usize, y: usize, direction: Direction)
        requires
            old(self).wf(),
            x < old(self).width,
            y < old(self).height,
            old(self).layout().in_grid(step((x as int, y as int), direction)),
        ensures
            final(self).width == old(self).width,
            final(self).height == old(self).height,
            final(self).cells@ == old(self).cells@,
            final(self).ideal_path@ == old(self).ideal_path@,
            final(self).start_pos == old(self).start_pos,
            final(self).end_pos == old(self).end_pos,
            direction.is_horizontal() ==> final(self).r_walls@ == old(self).r_walls@.update(
                wall_index(old(self).width as int, (x as int, y as int), direction),
                false,
            ) && final(self).b_walls@ == old(self).b_walls@,
            !direction.is_horizontal() ==> final(self).b_walls@ == old(self).b_walls@.update(
                wall_index(old(self).width as int, (x as int, y as int), direction),
                false,
            ) && final(self).r_walls@ == old(self).r_walls@,
    {
        match direction {
            Direction::Up => {
                let i = self.index(x, y - 1);
                self.b_walls.set(i, false);
            },
            Direction::Right => {
                let i = self.index(x, y);
                self.r_walls.set(i, false);
            },
            Direction::Down => {
                let i = self.index(x, y);
                self.b_walls.set(i, false);
            },
            Direction::Left => {
                let i = self.index(x - 1, y);
                self.r_walls.set(i, false);
            },
        }
    }

    /// Whether moving from `cur_pos` by `direction` leaves the grid.
    pub fn is_edge(&self, cur_pos: &(u8, u8), direction: &(i16, i16)) -> (r: bool)
        requires
            self.wf(),
        ensures
            r == !self.layout().in_grid(
                (cur_pos.0 + direction.0, cur_pos.1 + direction.1),
            ),
    {
        let nx: i32 = cur_pos.0 as i32 + direction.0 as i32;
        let ny: i32 = cur_pos.1 as i32 + direction.1 as i32;
        nx < 0 || ny < 0 || nx >= self.width as i32 || ny >= self.height as i32
    }

    /// Whether one move from `pos` in `direction` is open.
    pub(crate) fn can_move(&self, pos: (u8, u8), direction: Direction) -> (r: bool)
        requires
            self.wf(),
            self.layout().in_grid((pos.0 as int, pos.1 as int)),
        ensures
            r == self.layout().can_step((pos.0 as int, pos.1 as int), direction),
    {
        let x = pos.0 as usize;
        let y = pos.1 as usize;
        match direction {
            Direction::Left => x > 0 && !self.r_walls[self.index(x - 1, y)],
            Direction::Right => x + 1 < self.width && !self.r_walls[self.index(x, y)],
            Direction::Up => y > 0 && !self.b_walls[self.index(x, y - 1)],
            Direction::Down => y + 1 < self.height && !self.b_walls[self.index(x, y)],
        }
    }

    /// Whether one recorded offset from `pos` is a unit move through an open wall.
    fn can_move_path(&self, pos: (u8, u8), direction: (i8, i8)) -> (r: bool)
        requires
            self.wf(),
            self.layout().in_grid((pos.0 as int, pos.1 as int)),
        ensures
            r == match direction_of(direction) {
                Some(d) => self.layout().can_step((pos.0 as int, pos.1 as int), d),
                None => false,
            },
    {
        if direction.0 == -1 && direction.1 == 0 {
            self.can_move(pos, Direction::Left)
        } else if direction.0 == 1 && direction.1 == 0 {
            self.can_move(pos, Direction::Right)
        } else if direction.0 == 0 && direction.1 == -1 {
            self.can_move(pos, Direction::Up)
        } else if direction.0 == 0 && direction.1 == 1 {
            self.can_move(pos, Direction::Down)
        } else {
            false
        }
    }

    /// Replays `ideal_path` from `start_pos`, move by move against the walls,
    /// and tells whether it ends on `end_pos`.
    pub fn can_follow_path(&self) -> (r: bool)
        requires
            self.wf(),
        ensures
            r == self.path_followed(),
    {
        let ghost l = self.layout();
        let ghost path = self.ideal_path@;
        let mut cur = self.start_pos;
        let mut i: usize = 0;
        assert(path.subrange(0, path.len() as int) =~= path);
        while i < self.ideal_path.len()
            invariant
                self.wf(),
                l == self.layout(),
                path == self.ideal_path@,
                i <= path.len(),
                l.in_grid((cur.0 as int, cur.1 as int)),
                l.follow(self.start(), path) == l.follow(
                    (cur.0 as int, cur.1 as int),
                    path.subrange(i as int, path.len() as int),
                ),
            decreases path.len() - i,
        {
            let o = self.ideal_path[i];
            let ghost rest = path.subrange(i as int, path.len() as int);
            assert(rest[0] == o);
            if !self.can_move_path(cur, o) {
                return false;
            }
            assert(rest.drop_first() =~= path.subrange(i + 1, path.len() as int));
            cur = if o.0 == -1 {
                (cur.0 - 1, cur.1)
            } else if o.0 == 1 {
                (cur.0 + 1, cur.1)
            } else if o.1 == -1 {
                (cur.0, cur.1 - 1)
            } else {
                (cur.0, cur.1 + 1)
            };
            i = i + 1;
        }
        assert(path.subrange(i as int, path.len() as int).len() == 0);
        cur.0 == self.end_pos.0 && cur.1 == self.end_pos.1
    }
}

impl Clone for Maze {
    fn clone(&self) -> (r: Self)
        ensures
            r.width == self.width,
            r.height == self.height,
            r.cells@ == self.cells@,
            r.r_walls@ == self.r_walls@,
            r.b_walls@ == self.b_walls@,
            r.ideal_path@ == self.ideal_path@,
            r.start_pos == self.start_pos,
            r.end_pos == self.end_pos,
    {
        let cells = self.cells.clone();
        let r_walls = self.r_walls.clone();
        let b_walls = self.b_walls.clone();
        let mut ideal_path: Vec<(i8, i8)> = Vec::new();
        let mut i: usize = 0;
        while i < self.ideal_path.len()
            invariant
                i <= self.ideal_path@.len(),
                ideal_path@ == self.ideal_path@.subrange(0, i as int),
            decreases self.ideal_path@.len() - i,
        {
            ideal_path.push(self.ideal_path[i]);
            i = i + 1;
            proof {
                assert(ideal_path@ =~= self.ideal_path@.subrange(0, i as int));
            }
        }
        proof {
            assert(cells@ =~= self.cells@);
            assert(r_walls@ =~= self.r_walls@);
            assert(b_walls@ =~= self.b_walls@);
            assert(ideal_path@ =~= self.ideal_path@);
        }
        Maze {
            width: self.width,
            height: self.height,
            cells,
            r_walls,
            b_walls,
            ideal_path,
            start_pos: self.start_pos,
            end_pos: self.end_pos,
        }
    }
}

/// The cell at row-major index `i` of a grid `width` cells wide.
pub open spec fn cell_at(width: usize, i: usize) -> (u8, u8) {
    ((i % width) as u8, (i / width) as u8)
}

/// The end's index given the start's index `s` and a draw `e0` among the
/// other cells: indices from `s` on shift up by one, skipping the start.
pub open spec fn skip_index(s: usize, e0: usize) -> usize {
    if e0 >= s {
        (e0 + 1) as usize
    } else {
        e0
    }
}

/// Turns two draws into endpoints: `s` indexes the start among all
/// `width * height` cells, `e0` the end among the other cells.
pub fn place_endpoints(width: usize, height: usize, s: usize, e0: usize) -> (r: ((u8, u8), (u8, u8)))
    requires
        1 <= width <= MAX_SIDE,
        1 <= height <= MAX_SIDE,
        s < width * height,
        e0 + 1 < width * height,
    ensures
        r.0 == cell_at(width, s),
        r.1 == cell_at(width, skip_index(s, e0)),
        r.0 != r.1,
        r.0.0 < width && r.0.1 < height,
        r.1.0 < width && r.1.1 < height,
{
    proof {
        lemma_grid_size(width as int, height as int);
    }
    let e = if e0 >= s {
        e0 + 1
    } else {
        e0
    };
    let ghost cs = lemma_index_cell(width as int, height as int, s as int);
    let ghost ce = lemma_index_cell(width as int, height as int, e as int);
    (((s % width) as u8, (s / width) as u8), ((e % width) as u8, (e / width) as u8))
}

/// The error, if any, that building a `width` × `height` maze meets.
pub fn check_size(width: usize, height: usize) -> (r: Option<MazeError>)
    ensures
        r == size_error(width as int, height as int),
        r is None ==> 1 <= width <= MAX_SIDE && 1 <= height <= MAX_SIDE,
{
    if width == 0 || height == 0 {
        assert(width * height == 0) by (nonlinear_arith)
            requires
                width == 0 || height == 0,
        ;
        return Some(MazeError::Degenerate);
    }
    if width > MAX_SIDE || height > MAX_SIDE {
        assert(width * height >= 2) by (nonlinear_arith)
            requires
                width >= 1,
                height >= 1,
                width > 256 || height > 256,
        ;
        return Some(MazeError::TooLarge);
    }
    proof {
        lemma_grid_size(width as int, height as int);
    }
    if width * height < 2 {
        Some(MazeError::Degenerate)
    } else {
        None
    }
}

pub proof fn lemma_grid_size(w: int, h: int)
    requires
        1 <= w <= MAX_SIDE,
        1 <= h <= MAX_SIDE,
    ensures
        w * h <= MAX_SIDE * MAX_SIDE,
{
    assert(w * h <= 256 * 256) by (nonlinear_arith)
        requires
            1 <= w <= 256,
            1 <= h <= 256,
    ;
}

} // verus!
