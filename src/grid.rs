//! The grid graph of a maze: cells addressed by `(x, y)`, moves between
//! neighbouring cells, and walks along open passages.

use vstd::prelude::*;

verus! {

/// One of the four axis-aligned moves between neighbouring cells.
#[derive(Clone, Copy, PartialEq, Eq, Structural, Debug, Hash)]
pub enum Direction {
    Left,
    Right,
    Up,
    Down,
}

impl Direction {
    pub open spec fn dx(self) -> int {
        match self {
            Direction::Left => -1,
            Direction::Right => 1,
            _ => 0,
        }
    }

    pub open spec fn dy(self) -> int {
        match self {
            Direction::Up => -1,
            Direction::Down => 1,
            _ => 0,
        }
    }

    pub open spec fn opposite(self) -> Direction {
        match self {
            Direction::Left => Direction::Right,
            Direction::Right => Direction::Left,
            Direction::Up => Direction::Down,
            Direction::Down => Direction::Up,
        }
    }

    /// The move as a signed unit offset `(dx, dy)`.
    pub fn to_offset(&self) -> (r: (i16, i16))
        ensures
            r.0 == self.dx(),
            r.1 == self.dy(),
    {
        match self {
            Direction::Left => (-1, 0),
            Direction::Right => (1, 0),
            Direction::Up => (0, -1),
            Direction::Down => (0, 1),
        }
    }
}

impl Direction {
    /// The move as it is recorded in a maze's `ideal_path`.
    pub fn record_offset(&self) -> (r: (i8, i8))
        ensures
            r == offset_of(*self),
    {
        match self {
            Direction::Left => (-1, 0),
            Direction::Right => (1, 0),
            Direction::Up => (0, -1),
            Direction::Down => (0, 1),
        }
    }

    pub fn opposite_direction(&self) -> (r: Direction)
        ensures
            r == self.opposite(),
    {
        match self {
            Direction::Left => Direction::Right,
            Direction::Right => Direction::Left,
            Direction::Up => Direction::Down,
            Direction::Down => Direction::Up,
        }
    }
}

/// The record form of a move, as stored in a maze's `ideal_path`.
pub open spec fn offset_of(d: Direction) -> (i8, i8) {
    (d.dx() as i8, d.dy() as i8)
}

/// The move that a recorded offset stands for, if it is one of the four.
pub open spec fn direction_of(o: (i8, i8)) -> Option<Direction> {
    if o == (-1i8, 0i8) {
        Some(Direction::Left)
    } else if o == (1i8, 0i8) {
        Some(Direction::Right)
    } else if o == (0i8, -1i8) {
        Some(Direction::Up)
    } else if o == (0i8, 1i8) {
        Some(Direction::Down)
    } else {
        None
    }
}

pub open spec fn offsets(moves: Seq<Direction>) -> Seq<(i8, i8)> {
    moves.map_values(|d: Direction| offset_of(d))
}

pub open spec fn step(p: (int, int), d: Direction) -> (int, int) {
    (p.0 + d.dx(), p.1 + d.dy())
}

impl Direction {
    /// Horizontal moves cross walls of the `right` array, vertical ones walls of `below`.
    pub open spec fn is_horizontal(self) -> bool {
        self is Left || self is Right
    }
}

/// Index, in its wall array, of the wall crossed by moving from `p` in direction `d`.
pub open spec fn wall_index(w: int, p: (int, int), d: Direction) -> int {
    match d {
        Direction::Left => ix(w, p.0 - 1, p.1),
        Direction::Right => ix(w, p.0, p.1),
        Direction::Up => ix(w, p.0, p.1 - 1),
        Direction::Down => ix(w, p.0, p.1),
    }
}

/// Row-major index of cell `(x, y)` in a grid `w` cells wide.
pub open spec fn ix(w: int, x: int, y: int) -> int {
    y * w + x
}

pub proof fn lemma_ix_bounds(w: int, h: int, x: int, y: int)
    requires
        0 <= x < w,
        0 <= y < h,
    ensures
        0 <= ix(w, x, y) < w * h,
{
    assert(0 <= y * w) by (nonlinear_arith)
        requires
            0 <= y,
            0 <= w,
    ;
    assert(y * w + x < w * h) by (nonlinear_arith)
        requires
            0 <= x < w,
            0 <= y < h,
    ;
}

/// The cell at row-major index `i`.
pub proof fn lemma_index_cell(w: int, h: int, i: int) -> (c: (int, int))
    requires
        1 <= w,
        0 <= i < w * h,
    ensures
        0 <= c.0 < w,
        0 <= c.1 < h,
        ix(w, c.0, c.1) == i,
        c == (i % w, i / w),
{
    vstd::arithmetic::div_mod::lemma_fundamental_div_mod(i, w);
    vstd::arithmetic::div_mod::lemma_mod_bound(i, w);
    let q = i / w;
    let r = i % w;
    assert(0 <= q < h) by (nonlinear_arith)
        requires
            i == w * q + r,
            0 <= r < w,
            0 <= i < w * h,
            1 <= w,
    ;
    assert(q * w == w * q) by (nonlinear_arith);
    (r, q)
}

pub proof fn lemma_ix_injective(w: int, x1: int, y1: int, x2: int, y2: int)
    requires
        0 <= x1 < w,
        0 <= x2 < w,
        0 <= y1,
        0 <= y2,
        ix(w, x1, y1) == ix(w, x2, y2),
    ensures
        x1 == x2,
        y1 == y2,
{
    if y1 < y2 {
        assert(y1 * w + w <= y2 * w) by (nonlinear_arith)
            requires
                y1 < y2,
                0 <= w,
        ;
    } else if y2 < y1 {
        assert(y2 * w + w <= y1 * w) by (nonlinear_arith)
            requires
                y2 < y1,
                0 <= w,
        ;
    }
}

/// The passage graph of a maze: its size and its two arrays of wall flags.
/// `right[ix(w, x, y)]` closes the passage from `(x, y)` to `(x + 1, y)`,
/// `below[ix(w, x, y)]` the one from `(x, y)` to `(x, y + 1)`.
pub struct Layout {
    pub width: int,
    pub height: int,
    pub right: Seq<bool>,
    pub below: Seq<bool>,
}

impl Layout {
    pub open spec fn in_grid(self, p: (int, int)) -> bool {
        0 <= p.0 < self.width && 0 <= p.1 < self.height
    }

    /// Whether the wall crossed by moving from `p` in direction `d` is closed.
    pub open spec fn wall_closed(self, p: (int, int), d: Direction) -> bool {
        if d.is_horizontal() {
            self.right[wall_index(self.width, p, d)]
        } else {
            self.below[wall_index(self.width, p, d)]
        }
    }

    /// A move from `p` in direction `d` stays on the grid and crosses an open wall.
    pub open spec fn can_step(self, p: (int, int), d: Direction) -> bool {
        self.in_grid(p) && self.in_grid(step(p, d)) && !self.wall_closed(p, d)
    }

    /// Where the moves lead from `p`, or `None` if one of them is blocked.
    pub open spec fn walk(self, p: (int, int), moves: Seq<Direction>) -> Option<(int, int)>
        decreases moves.len(),
    {
        if moves.len() == 0 {
            Some(p)
        } else if self.can_step(p, moves[0]) {
            self.walk(step(p, moves[0]), moves.drop_first())
        } else {
            None
        }
    }

    /// Where recorded offsets lead from `p`, or `None` if one of them is not a
    /// unit move or is blocked.
    pub open spec fn follow(self, p: (int, int), path: Seq<(i8, i8)>) -> Option<(int, int)>
        decreases path.len(),
    {
        if path.len() == 0 {
            Some(p)
        } else {
            match direction_of(path[0]) {
                Some(d) => if self.can_step(p, d) {
                    self.follow(step(p, d), path.drop_first())
                } else {
                    None
                },
                None => None,
            }
        }
    }

    pub open spec fn reachable(self, a: (int, int), b: (int, int)) -> bool {
        exists|moves: Seq<Direction>| self.walk(a, moves) == Some(b)
    }

    /// `moves` leads from `a` to `b`, and no walk from `a` to `b` is shorter.
    pub open spec fn is_shortest(self, a: (int, int), b: (int, int), moves: Seq<Direction>) -> bool {
        &&& self.walk(a, moves) == Some(b)
        &&& forall|other: Seq<Direction>| self.walk(a, other) == Some(b) ==> moves.len() <= other.len()
    }

    pub open spec fn connected(self) -> bool {
        forall|a: (int, int), b: (int, int)|
            self.in_grid(a) && self.in_grid(b) ==> #[trigger] self.reachable(a, b)
    }

    pub open spec fn open_walls(self) -> nat {
        count_of(self.right, false) + count_of(self.below, false)
    }

    /// Walls on the outer right column and bottom row stay closed.
    pub open spec fn border_closed(self) -> bool {
        &&& forall|y: int| 0 <= y < self.height ==> #[trigger] self.right[ix(self.width, self.width - 1, y)]
        &&& forall|x: int| 0 <= x < self.width ==> #[trigger] self.below[ix(self.width, x, self.height - 1)]
    }

    /// A spanning tree of the grid: connected, with one open wall fewer than cells.
    pub open spec fn is_perfect(self) -> bool {
        &&& self.connected()
        &&& self.border_closed()
        &&& self.open_walls() == self.width * self.height - 1
    }

    /// Every wall open in `self` is open in `other` too.
    pub open spec fn opens_within(self, other: Layout) -> bool {
        &&& self.width == other.width
        &&& self.height == other.height
        &&& self.right.len() == other.right.len()
        &&& self.below.len() == other.below.len()
        &&& forall|i: int| 0 <= i < self.right.len() && !self.right[i] ==> !other.right[i]
        &&& forall|i: int| 0 <= i < self.below.len() && !self.below[i] ==> !other.below[i]
    }

    pub open spec fn sized(self) -> bool {
        &&& self.width >= 1
        &&& self.height >= 1
        &&& self.right.len() == self.width * self.height
        &&& self.below.len() == self.width * self.height
    }
}

/// How many entries of `s` equal `v`.
pub open spec fn count_of(s: Seq<bool>, v: bool) -> nat
    decreases s.len(),
{
    if s.len() == 0 {
        0
    } else {
        count_of(s.drop_last(), v) + if s.last() == v {
            1nat
        } else {
            0nat
        }
    }
}

pub proof fn lemma_count_bound(s: Seq<bool>, v: bool)
    ensures
        count_of(s, v) <= s.len(),
    decreases s.len(),
{
    if s.len() > 0 {
        lemma_count_bound(s.drop_last(), v);
    }
}

pub proof fn lemma_count_uniform(s: Seq<bool>, v: bool)
    requires
        forall|i: int| 0 <= i < s.len() ==> s[i] == v,
    ensures
        count_of(s, v) == s.len(),
        count_of(s, !v) == 0,
    decreases s.len(),
{
    if s.len() > 0 {
        lemma_count_uniform(s.drop_last(), v);
    }
}

/// Setting one entry that differs from `v` to `v` adds one to the count.
pub proof fn lemma_count_flip(s: Seq<bool>, i: int, v: bool)
    requires
        0 <= i < s.len(),
        s[i] != v,
    ensures
        count_of(s.update(i, v), v) == count_of(s, v) + 1,
    decreases s.len(),
{
    let t = s.update(i, v);
    if i == s.len() - 1 {
        assert(t.drop_last() =~= s.drop_last());
    } else {
        assert(t.drop_last() =~= s.drop_last().update(i, v));
        lemma_count_flip(s.drop_last(), i, v);
    }
}


pub proof fn lemma_wall_index_bounds(l: Layout, p: (int, int), d: Direction)
    requires
        l.in_grid(p),
        l.in_grid(step(p, d)),
    ensures
        0 <= wall_index(l.width, p, d) < l.width * l.height,
{
    match d {
        Direction::Left => lemma_ix_bounds(l.width, l.height, p.0 - 1, p.1),
        Direction::Up => lemma_ix_bounds(l.width, l.height, p.0, p.1 - 1),
        _ => lemma_ix_bounds(l.width, l.height, p.0, p.1),
    }
}

/// Moving back undoes a move, through the same wall.
pub proof fn lemma_step_back(l: Layout, p: (int, int), d: Direction)
    ensures
        step(step(p, d), d.opposite()) == p,
        l.can_step(p, d) ==> l.can_step(step(p, d), d.opposite()),
{
    let q = step(p, d);
    assert(wall_index(l.width, q, d.opposite()) == wall_index(l.width, p, d));
}

/// Walking one move more: the walk so far, then that move.
pub proof fn lemma_walk_push(l: Layout, p: (int, int), moves: Seq<Direction>, d: Direction)
    ensures
        l.walk(p, moves.push(d)) == (match l.walk(p, moves) {
            Some(q) => if l.can_step(q, d) {
                Some(step(q, d))
            } else {
                None
            },
            None => None,
        }),
    decreases moves.len(),
{
    let m = moves.push(d);
    if moves.len() == 0 {
        assert(m.drop_first() =~= Seq::<Direction>::empty());
    } else {
        assert(m[0] == moves[0]);
        assert(m.drop_first() =~= moves.drop_first().push(d));
        if l.can_step(p, moves[0]) {
            lemma_walk_push(l, step(p, moves[0]), moves.drop_first(), d);
        }
    }
}

/// A walk along `a + b` is a walk along `a`, then along `b`.
pub proof fn lemma_walk_concat(l: Layout, p: (int, int), a: Seq<Direction>, b: Seq<Direction>)
    ensures
        l.walk(p, a + b) == (match l.walk(p, a) {
            Some(q) => l.walk(q, b),
            None => None,
        }),
    decreases a.len(),
{
    if a.len() == 0 {
        assert(a + b =~= b);
    } else {
        assert((a + b)[0] == a[0]);
        assert((a + b).drop_first() =~= a.drop_first() + b);
        if l.can_step(p, a[0]) {
            lemma_walk_concat(l, step(p, a[0]), a.drop_first(), b);
        }
    }
}

/// The moves that retrace `moves` backwards.
pub open spec fn retrace(moves: Seq<Direction>) -> Seq<Direction>
    decreases moves.len(),
{
    if moves.len() == 0 {
        Seq::empty()
    } else {
        seq![moves.last().opposite()] + retrace(moves.drop_last())
    }
}

/// Passages are two-way: a walk retraced leads back to where it began.
pub proof fn lemma_walk_retrace(l: Layout, p: (int, int), moves: Seq<Direction>)
    requires
        l.walk(p, moves) is Some,
    ensures
        l.walk(l.walk(p, moves)->0, retrace(moves)) == Some(p),
    decreases moves.len(),
{
    if moves.len() > 0 {
        let init = moves.drop_last();
        let d = moves.last();
        assert(moves =~= init.push(d));
        lemma_walk_push(l, p, init, d);
        let q0 = l.walk(p, init)->0;
        let q = step(q0, d);
        lemma_step_back(l, q0, d);
        lemma_walk_retrace(l, p, init);
        let r = seq![d.opposite()] + retrace(init);
        assert(r[0] == d.opposite());
        assert(r.drop_first() =~= retrace(init));
    }
}

/// Opening walls never blocks a walk.
pub proof fn lemma_walk_opened(l: Layout, l2: Layout, p: (int, int), moves: Seq<Direction>)
    requires
        l.sized(),
        l.opens_within(l2),
        l.walk(p, moves) is Some,
    ensures
        l2.walk(p, moves) == l.walk(p, moves),
    decreases moves.len(),
{
    if moves.len() > 0 {
        lemma_wall_index_bounds(l, p, moves[0]);
        lemma_walk_opened(l, l2, step(p, moves[0]), moves.drop_first());
    }
}

/// Recorded offsets of a walk lead where the walk leads.
pub proof fn lemma_follow_offsets(l: Layout, p: (int, int), moves: Seq<Direction>)
    ensures
        l.follow(p, offsets(moves)) == l.walk(p, moves),
    decreases moves.len(),
{
    if moves.len() > 0 {
        let o = offsets(moves);
        assert(o[0] == offset_of(moves[0]));
        assert(direction_of(offset_of(moves[0])) == Some(moves[0]));
        assert(o.drop_first() =~= offsets(moves.drop_first()));
        lemma_follow_offsets(l, step(p, moves[0]), moves.drop_first());
    }
}

/// A grid whose every cell is reachable from one root is connected.
pub proof fn lemma_connected_from_root(l: Layout, root: (int, int))
    requires
        forall|c: (int, int)| l.in_grid(c) ==> #[trigger] l.reachable(root, c),
    ensures
        l.connected(),
{
    assert forall|a: (int, int), b: (int, int)| l.in_grid(a) && l.in_grid(b) implies #[trigger] l.reachable(a, b) by {
        assert(l.reachable(root, a));
        assert(l.reachable(root, b));
        let sa = choose|m: Seq<Direction>| l.walk(root, m) == Some(a);
        let sb = choose|m: Seq<Direction>| l.walk(root, m) == Some(b);
        lemma_walk_retrace(l, root, sa);
        lemma_walk_concat(l, a, retrace(sa), sb);
        assert(l.walk(a, retrace(sa) + sb) == Some(b));
    }
}

/// Each move changes `x + y` by one, so a walk's length has the parity of
/// the distance it covers.
pub proof fn lemma_walk_parity(l: Layout, p: (int, int), moves: Seq<Direction>)
    requires
        l.walk(p, moves) is Some,
    ensures
        (moves.len() + (l.walk(p, moves)->0).0 + (l.walk(p, moves)->0).1 - p.0 - p.1) % 2 == 0,
    decreases moves.len(),
{
    if moves.len() > 0 {
        lemma_walk_parity(l, step(p, moves[0]), moves.drop_first());
    }
}

} // verus!
