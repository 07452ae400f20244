//! Perfect-maze generation: randomized depth-first backtracking over the
//! grid, run on an explicit stack so that deep mazes need no deep recursion.

use crate::grid::{
    count_of, ix, lemma_connected_from_root, lemma_count_bound, lemma_count_flip,
    lemma_count_uniform, lemma_ix_bounds, lemma_ix_injective, lemma_walk_opened, lemma_walk_push,
    step, wall_index, Direction, Layout,
};
use crate::maze::{lemma_grid_size, Maze};
use crate::random::{draw_below, shuffle_directions};
use vstd::prelude::*;

verus! {

broadcast use vstd::seq_lib::to_multiset_contains;

/// The cell whose `right` or `below` flag is the wall crossed by moving from
/// `p` in direction `d`.
pub open spec fn wall_cell(p: (int, int), d: Direction) -> (int, int) {
    match d {
        Direction::Left => (p.0 - 1, p.1),
        Direction::Up => (p.0, p.1 - 1),
        _ => p,
    }
}

/// A wall lies between exactly two cells.
proof fn lemma_wall_owner(l: Layout, u: (int, int), d1: Direction, p: (int, int), d2: Direction)
    requires
        l.in_grid(u),
        l.in_grid(step(u, d1)),
        l.in_grid(p),
        l.in_grid(step(p, d2)),
        d1.is_horizontal() == d2.is_horizontal(),
        wall_index(l.width, u, d1) == wall_index(l.width, p, d2),
    ensures
        u == p || u == step(p, d2),
{
    let a = wall_cell(u, d1);
    let b = wall_cell(p, d2);
    assert(wall_index(l.width, u, d1) == ix(l.width, a.0, a.1));
    assert(wall_index(l.width, p, d2) == ix(l.width, b.0, b.1));
    lemma_ix_injective(l.width, a.0, a.1, b.0, b.1);
}

/// `l2` is `l` with the wall crossed from `p` in direction `d` opened.
pub open spec fn opened_from(l: Layout, l2: Layout, p: (int, int), d: Direction) -> bool {
    let i = wall_index(l.width, p, d);
    &&& l2.width == l.width
    &&& l2.height == l.height
    &&& d.is_horizontal() ==> l2.right == l.right.update(i, false) && l2.below == l.below
    &&& !d.is_horizontal() ==> l2.below == l.below.update(i, false) && l2.right == l.right
}

/// Every wall around cell `u` is closed.
pub open spec fn sealed(l: Layout, u: (int, int)) -> bool {
    forall|d: Direction| l.in_grid(step(u, d)) ==> #[trigger] l.wall_closed(u, d)
}

/// Opening one closed wall between two cells: one more open wall, the move
/// across it becomes possible, and nothing else changes.
proof fn lemma_open_wall(l: Layout, l2: Layout, p: (int, int), d: Direction)
    requires
        l.sized(),
        l.in_grid(p),
        l.in_grid(step(p, d)),
        l.wall_closed(p, d),
        opened_from(l, l2, p, d),
    ensures
        l2.sized(),
        l.opens_within(l2),
        l2.can_step(p, d),
        l2.open_walls() == l.open_walls() + 1,
        l.border_closed() ==> l2.border_closed(),
        forall|u: (int, int)|
            l.in_grid(u) && u != p && u != step(p, d) && sealed(l, u) ==> sealed(l2, u),
{
    let i = wall_index(l.width, p, d);
    crate::grid::lemma_wall_index_bounds(l, p, d);
    if d.is_horizontal() {
        lemma_count_flip(l.right, i, false);
    } else {
        lemma_count_flip(l.below, i, false);
    }
    if l.border_closed() {
        assert forall|y: int| 0 <= y < l2.height implies #[trigger] l2.right[ix(
            l2.width,
            l2.width - 1,
            y,
        )] by {
            lemma_ix_bounds(l.width, l.height, l.width - 1, y);
            if d.is_horizontal() && ix(l.width, l.width - 1, y) == i {
                let c = wall_cell(p, d);
                assert(i == ix(l.width, c.0, c.1));
                lemma_ix_injective(l.width, l.width - 1, y, c.0, c.1);
            }
        }
        assert forall|x: int| 0 <= x < l2.width implies #[trigger] l2.below[ix(
            l2.width,
            x,
            l2.height - 1,
        )] by {
            lemma_ix_bounds(l.width, l.height, x, l.height - 1);
            if !d.is_horizontal() && ix(l.width, x, l.height - 1) == i {
                let c = wall_cell(p, d);
                assert(i == ix(l.width, c.0, c.1));
                lemma_ix_injective(l.width, x, l.height - 1, c.0, c.1);
            }
        }
    }
    assert forall|u: (int, int)|
        l.in_grid(u) && u != p && u != step(p, d) && sealed(l, u) implies sealed(l2, u) by {
        assert forall|d1: Direction| l2.in_grid(step(u, d1)) implies #[trigger] l2.wall_closed(
            u,
            d1,
        ) by {
            assert(l.wall_closed(u, d1));
            crate::grid::lemma_wall_index_bounds(l, u, d1);
            if d1.is_horizontal() == d.is_horizontal() && wall_index(l.width, u, d1) == i {
                lemma_wall_owner(l, u, d1, p, d);
            }
        }
    }
}

/// The neighbour of `p` in direction `d` is off the grid or already visited.
pub open spec fn settled(v: Seq<bool>, w: int, h: int, p: (int, int), d: Direction) -> bool {
    let q = step(p, d);
    !(0 <= q.0 < w && 0 <= q.1 < h) || v[ix(w, q.0, q.1)]
}

pub open spec fn closed(v: Seq<bool>, w: int, h: int, p: (int, int)) -> bool {
    forall|d: Direction| #[trigger] settled(v, w, h, p, d)
}

/// From a visited cell of row `y`, a set closed under moves covers the row.
proof fn lemma_cover_row(v: Seq<bool>, w: int, h: int, x0: int, y: int, x: int)
    requires
        0 <= x0 < w,
        0 <= x < w,
        0 <= y < h,
        v[ix(w, x0, y)],
        forall|a: int, b: int|
            0 <= a < w && 0 <= b < h && #[trigger] v[ix(w, a, b)] ==> closed(v, w, h, (a, b)),
    ensures
        v[ix(w, x, y)],
    decreases if x >= x0 {
        x - x0
    } else {
        x0 - x
    },
{
    if x > x0 {
        lemma_cover_row(v, w, h, x0, y, x - 1);
        assert(settled(v, w, h, (x - 1, y), Direction::Right));
    } else if x < x0 {
        lemma_cover_row(v, w, h, x0, y, x + 1);
        assert(settled(v, w, h, (x + 1, y), Direction::Left));
    }
}

/// From a visited cell of column `x`, a set closed under moves covers the column.
proof fn lemma_cover_column(v: Seq<bool>, w: int, h: int, x: int, y0: int, y: int)
    requires
        0 <= x < w,
        0 <= y0 < h,
        0 <= y < h,
        v[ix(w, x, y0)],
        forall|a: int, b: int|
            0 <= a < w && 0 <= b < h && #[trigger] v[ix(w, a, b)] ==> closed(v, w, h, (a, b)),
    ensures
        v[ix(w, x, y)],
    decreases if y >= y0 {
        y - y0
    } else {
        y0 - y
    },
{
    if y > y0 {
        lemma_cover_column(v, w, h, x, y0, y - 1);
        assert(settled(v, w, h, (x, y - 1), Direction::Down));
    } else if y < y0 {
        lemma_cover_column(v, w, h, x, y0, y + 1);
        assert(settled(v, w, h, (x, y + 1), Direction::Up));
    }
}

/// A set of cells that holds one cell and is closed under moves holds them all.
proof fn lemma_cover_grid(v: Seq<bool>, w: int, h: int, root: (int, int))
    requires
        0 <= root.0 < w,
        0 <= root.1 < h,
        v[ix(w, root.0, root.1)],
        forall|a: int, b: int|
            0 <= a < w && 0 <= b < h && #[trigger] v[ix(w, a, b)] ==> closed(v, w, h, (a, b)),
    ensures
        forall|a: int, b: int| 0 <= a < w && 0 <= b < h ==> #[trigger] v[ix(w, a, b)],
{
    assert forall|a: int, b: int| 0 <= a < w && 0 <= b < h implies #[trigger] v[ix(w, a, b)] by {
        lemma_cover_row(v, w, h, root.0, root.1, a);
        lemma_cover_column(v, w, h, a, root.1, b);
    }
}

/// A cell on the backtracking stack, with the directions it has still to try.
struct Frame {
    x: usize,
    y: usize,
    dirs: Vec<Direction>,
}

/// Work left on the stack: each frame's untried directions, plus one to pop it.
spec fn pending(s: Seq<Frame>) -> nat
    decreases s.len(),
{
    if s.len() == 0 {
        0
    } else {
        pending(s.drop_last()) + s.last().dirs@.len() + 1
    }
}

/// The frame's cell is visited, and every direction it no longer holds leads
/// off the grid or to a visited cell.
spec fn frame_ok(f: Frame, v: Seq<bool>, w: int, h: int) -> bool {
    &&& f.x < w
    &&& f.y < h
    &&& v[ix(w, f.x as int, f.y as int)]
    &&& forall|d: Direction| !f.dirs@.contains(d) ==> #[trigger] settled(v, w, h, (f.x as int, f.y as int), d)
}

/// The four directions in a random order.
fn shuffled_directions(rng: &mut rand::rngs::StdRng) -> (r: Vec<Direction>)
    ensures
        forall|d: Direction| #[trigger] r@.contains(d),
{
    let mut v: Vec<Direction> = Vec::new();
    v.push(Direction::Up);
    v.push(Direction::Right);
    v.push(Direction::Down);
    v.push(Direction::Left);
    let ghost before = v@;
    assert(before[0] == Direction::Up && before[1] == Direction::Right && before[2] == Direction::Down
        && before[3] == Direction::Left);
    shuffle_directions(rng, &mut v);
    proof {
        assert forall|d: Direction| #[trigger] v@.contains(d) by {
            match d {
                Direction::Up => {
                    assert(before[0] == d);
                },
                Direction::Right => {
                    assert(before[1] == d);
                },
                Direction::Down => {
                    assert(before[2] == d);
                },
                Direction::Left => {
                    assert(before[3] == d);
                },
            }
            assert(before.contains(d));
            assert(before.to_multiset().count(d) > 0);
            assert(v@.to_multiset().count(d) > 0);
        }
    }
    v
}

/// `n` copies of `value`.
pub(crate) fn filled<T: Copy>(n: usize, value: T) -> (r: Vec<T>)
    ensures
        r@.len() == n,
        forall|i: int| 0 <= i < n ==> r@[i] == value,
{
    let mut r: Vec<T> = Vec::new();
    while r.len() < n
        invariant
            r@.len() <= n,
            forall|i: int| 0 <= i < r@.len() ==> r@[i] == value,
        decreases n - r@.len(),
    {
        r.push(value);
    }
    r
}

impl Maze {
    /// Carves a perfect maze out of an all-walled one: randomized depth-first
    /// backtracking from a random cell, which opens the wall to each unvisited
    /// neighbour (tried in a shuffled order) and goes on from there. Every cell
    /// gets visited and marked in `cells`; the open walls form a spanning tree.
    pub fn gen_maze(&mut self, rng: &mut rand::rngs::StdRng)
        requires
            old(self).wf(),
            old(self).all_walls_closed(),
        ensures
            final(self).wf(),
            final(self).width == old(self).width,
            final(self).height == old(self).height,
            final(self).start_pos == old(self).start_pos,
            final(self).end_pos == old(self).end_pos,
            final(self).ideal_path@ == old(self).ideal_path@,
            final(self).layout().is_perfect(),
            forall|i: int| 0 <= i < final(self).cells@.len() ==> final(self).cells@[i],
    {
        let w = self.width;
        let h = self.height;
        proof {
            lemma_grid_size(w as int, h as int);
        }
        let n = w * h;
        let ghost wi = w as int;
        let ghost hi = h as int;
        let ghost start0 = self.start_pos;
        let ghost end0 = self.end_pos;
        let ghost path0 = self.ideal_path@;
        let sx = draw_below(rng, w);
        let sy = draw_below(rng, h);
        let ghost root = (sx as int, sy as int);
        let mut visited = filled(n, false);
        let si = self.index(sx, sy);
        proof {
            lemma_count_uniform(visited@, false);
            lemma_count_flip(visited@, si as int, true);
            lemma_count_uniform(self.r_walls@, true);
            lemma_count_uniform(self.b_walls@, true);
            assert forall|x: int, y: int| 0 <= x < wi && 0 <= y < hi implies 0 <= #[trigger] ix(
                wi,
                x,
                y,
            ) < n by {
                lemma_ix_bounds(wi, hi, x, y);
            }
        }
        visited.set(si, true);
        self.cells.set(si, true);
        let ghost mut paths: Seq<Seq<Direction>> = Seq::new(
            n as nat,
            |i: int| Seq::<Direction>::empty(),
        );
        let ghost mut slot: Seq<int> = Seq::new(n as nat, |i: int| 0int);
        let mut stack: Vec<Frame> = Vec::new();
        let first = shuffled_directions(rng);
        stack.push(Frame { x: sx, y: sy, dirs: first });
        proof {
            let l = self.layout();
            assert forall|x: int, y: int|
                #![trigger visited@[ix(wi, x, y)]]
                0 <= x < wi && 0 <= y < hi && !visited@[ix(wi, x, y)] implies sealed(l, (x, y)) by {
                assert forall|d: Direction| l.in_grid(step((x, y), d)) implies #[trigger] l.wall_closed(
                    (x, y),
                    d,
                ) by {
                    crate::grid::lemma_wall_index_bounds(l, (x, y), d);
                }
            }
            assert forall|x: int, y: int|
                #![trigger visited@[ix(wi, x, y)]]
                0 <= x < wi && 0 <= y < hi && visited@[ix(wi, x, y)] implies (x, y) == root by {
                if ix(wi, x, y) != si {
                    assert(visited@[ix(wi, x, y)] == false);
                }
                lemma_ix_injective(wi, x, y, root.0, root.1);
            }
            assert(l.walk(root, Seq::<Direction>::empty()) == Some(root));
            assert(frame_ok(stack@[0], visited@, wi, hi));
        }
        while stack.len() > 0
            invariant
                self.wf(),
                self.width == w,
                self.height == h,
                wi == w,
                hi == h,
                n == w * h,
                self.start_pos == start0,
                self.end_pos == end0,
                self.ideal_path@ == path0,
                visited@.len() == n,
                paths.len() == n,
                slot.len() == n,
                0 <= root.0 < wi,
                0 <= root.1 < hi,
                visited@[ix(wi, root.0, root.1)],
                forall|x: int, y: int|
                    0 <= x < wi && 0 <= y < hi ==> 0 <= #[trigger] ix(wi, x, y) < n,
                forall|i: int| 0 <= i < n && visited@[i] ==> self.cells@[i],
                forall|k: int|
                    0 <= k < stack@.len() ==> frame_ok(#[trigger] stack@[k], visited@, wi, hi),
                forall|x: int, y: int|
                    #![trigger visited@[ix(wi, x, y)]]
                    0 <= x < wi && 0 <= y < hi && visited@[ix(wi, x, y)] && !closed(
                        visited@,
                        wi,
                        hi,
                        (x, y),
                    ) ==> 0 <= slot[ix(wi, x, y)] < stack@.len() && stack@[slot[ix(
                        wi,
                        x,
                        y,
                    )]].x == x && stack@[slot[ix(wi, x, y)]].y == y,
                forall|x: int, y: int|
                    #![trigger visited@[ix(wi, x, y)]]
                    0 <= x < wi && 0 <= y < hi && visited@[ix(wi, x, y)] ==> self.layout().walk(
                        root,
                        paths[ix(wi, x, y)],
                    ) == Some((x, y)),
                forall|x: int, y: int|
                    #![trigger visited@[ix(wi, x, y)]]
                    0 <= x < wi && 0 <= y < hi && !visited@[ix(wi, x, y)] ==> sealed(
                        self.layout(),
                        (x, y),
                    ),
                self.layout().open_walls() + 1 == count_of(visited@, true),
                count_of(visited@, true) <= n,
                self.layout().border_closed(),
            decreases n - count_of(visited@, true), pending(stack@),
        {
            let ghost s0 = stack@;
            let ghost l0 = self.layout();
            let ghost v0 = visited@;
            let mut frame = stack.pop().unwrap();
            let ghost top = stack@.len() as int;
            let ghost fdirs = frame.dirs@;
            let ghost fc = (frame.x as int, frame.y as int);
            proof {
                assert(s0 =~= stack@.push(frame));
                assert(s0.drop_last() =~= stack@);
                assert(s0[top] == frame);
            }
            match frame.dirs.pop() {
                None => {
                    proof {
                        assert(frame_ok(s0[top], v0, wi, hi));
                        assert forall|d: Direction| #[trigger] settled(v0, wi, hi, fc, d) by {
                            assert(!fdirs.contains(d));
                        }
                        assert(closed(v0, wi, hi, fc));
                        assert forall|x: int, y: int|
                            #![trigger visited@[ix(wi, x, y)]]
                            0 <= x < wi && 0 <= y < hi && visited@[ix(wi, x, y)] && !closed(
                                visited@,
                                wi,
                                hi,
                                (x, y),
                            ) implies 0 <= slot[ix(wi, x, y)] < stack@.len() && stack@[slot[ix(
                            wi,
                            x,
                            y,
                        )]].x == x && stack@[slot[ix(wi, x, y)]].y == y by {
                            assert(s0[slot[ix(wi, x, y)]].x == x);
                            assert(slot[ix(wi, x, y)] != top);
                        }
                    }
                },
                Some(d) => {
                    let x = frame.x;
                    let y = frame.y;
                    stack.push(frame);
                    let ghost s1 = stack@;
                    proof {
                        assert(fdirs =~= frame.dirs@.push(d));
                        assert(s1.drop_last() =~= s0.drop_last());
                        assert(pending(s1) + 1 == pending(s0));
                        assert forall|k: int| 0 <= k < s1.len() implies s1[k].x == s0[k].x && s1[k].y
                            == s0[k].y && (k != top ==> s1[k] == s0[k]) by {}
                    }
                    match self.neighbor(x, y, d) {
                        None => {
                            proof {
                                assert forall|d2: Direction|
                                    !s1[top].dirs@.contains(d2) implies #[trigger] settled(
                                    visited@,
                                    wi,
                                    hi,
                                    fc,
                                    d2,
                                ) by {
                                    if d2 != d {
                                        assert(!fdirs.contains(d2));
                                        assert(frame_ok(s0[top], v0, wi, hi));
                                    }
                                }
                                assert(frame_ok(s1[top], visited@, wi, hi));
                                assert forall|k: int| 0 <= k < s1.len() implies frame_ok(
                                    #[trigger] s1[k],
                                    visited@,
                                    wi,
                                    hi,
                                ) by {
                                    if k != top {
                                        assert(frame_ok(s0[k], v0, wi, hi));
                                    }
                                }
                            }
                        },
                        Some(q) => {
                            let ni = self.index(q.0, q.1);
                            let ghost qc = (q.0 as int, q.1 as int);
                            if !visited[ni] {
                                proof {
                                    assert(sealed(l0, qc));
                                    crate::grid::lemma_step_back(l0, fc, d);
                                    assert(wall_index(wi, qc, d.opposite()) == wall_index(wi, fc, d));
                                    assert(l0.wall_closed(qc, d.opposite()));
                                }
                                self.remove_wall(x, y, d);
                                let ghost l1 = self.layout();
                                proof {
                                    lemma_open_wall(l0, l1, fc, d);
                                    lemma_count_flip(v0, ni as int, true);
                                }
                                visited.set(ni, true);
                                self.cells.set(ni, true);
                                let dirs = shuffled_directions(rng);
                                stack.push(Frame { x: q.0, y: q.1, dirs });
                                proof {
                                    let v1 = visited@;
                                    lemma_count_bound(v1, true);
                                    let old_paths = paths;
                                    let old_slot = slot;
                                    paths = paths.update(ni as int, old_paths[ix(wi, fc.0, fc.1)].push(d));
                                    slot = slot.update(ni as int, top + 1);
                                    lemma_walk_push(l1, root, old_paths[ix(wi, fc.0, fc.1)], d);
                                    lemma_walk_opened(l0, l1, root, old_paths[ix(wi, fc.0, fc.1)]);
                                    assert forall|a: int, b: int|
                                        #![trigger visited@[ix(wi, a, b)]]
                                        0 <= a < wi && 0 <= b < hi && visited@[ix(wi, a, b)] implies l1.walk(
                                            root,
                                            paths[ix(wi, a, b)],
                                        ) == Some((a, b)) by {
                                        if (a, b) != qc {
                                            if ix(wi, a, b) == ni as int {
                                                lemma_ix_injective(wi, a, b, qc.0, qc.1);
                                            }
                                            lemma_walk_opened(l0, l1, root, old_paths[ix(wi, a, b)]);
                                        }
                                    }
                                    assert forall|a: int, b: int|
                                        #![trigger visited@[ix(wi, a, b)]]
                                        0 <= a < wi && 0 <= b < hi && !visited@[ix(wi, a, b)] implies sealed(
                                            l1,
                                            (a, b),
                                        ) by {
                                        if (a, b) != qc {
                                            if ix(wi, a, b) == ni as int {
                                                lemma_ix_injective(wi, a, b, qc.0, qc.1);
                                            }
                                        }
                                        if (a, b) == fc {
                                            assert(v0[ix(wi, fc.0, fc.1)]);
                                        }
                                    }
                                    assert forall|a: int, b: int|
                                        #![trigger visited@[ix(wi, a, b)]]
                                        0 <= a < wi && 0 <= b < hi && visited@[ix(wi, a, b)] && !closed(
                                            visited@,
                                            wi,
                                            hi,
                                            (a, b),
                                        ) implies 0 <= slot[ix(wi, a, b)] < stack@.len() && stack@[slot[ix(
                                        wi,
                                        a,
                                        b,
                                    )]].x == a && stack@[slot[ix(wi, a, b)]].y == b by {
                                        if (a, b) != qc {
                                            if ix(wi, a, b) == ni as int {
                                                lemma_ix_injective(wi, a, b, qc.0, qc.1);
                                            }
                                            if closed(v0, wi, hi, (a, b)) {
                                                assert forall|d2: Direction| #[trigger] settled(
                                                    visited@,
                                                    wi,
                                                    hi,
                                                    (a, b),
                                                    d2,
                                                ) by {
                                                    assert(settled(v0, wi, hi, (a, b), d2));
                                                }
                                            }
                                            assert(stack@[old_slot[ix(wi, a, b)]] == s1[old_slot[ix(wi, a, b)]]);
                                        }
                                    }
                                    assert forall|d2: Direction|
                                        !s1[top].dirs@.contains(d2) implies #[trigger] settled(
                                        visited@,
                                        wi,
                                        hi,
                                        fc,
                                        d2,
                                    ) by {
                                        if d2 != d {
                                            assert(!fdirs.contains(d2));
                                            assert(frame_ok(s0[top], v0, wi, hi));
                                            assert(settled(v0, wi, hi, fc, d2));
                                        }
                                    }
                                    assert forall|k: int| 0 <= k < stack@.len() implies frame_ok(
                                        #[trigger] stack@[k],
                                        visited@,
                                        wi,
                                        hi,
                                    ) by {
                                        if k < top {
                                            assert(frame_ok(s0[k], v0, wi, hi));
                                            assert(stack@[k] == s0[k]);
                                            assert forall|d2: Direction| !s0[k].dirs@.contains(d2) implies #[trigger] settled(
                                                visited@,
                                                wi,
                                                hi,
                                                (s0[k].x as int, s0[k].y as int),
                                                d2,
                                            ) by {
                                                assert(settled(v0, wi, hi, (s0[k].x as int, s0[k].y as int), d2));
                                            }
                                        } else if k == top {
                                            assert(stack@[k] == s1[k]);
                                        }
                                    }
                                }
                            } else {
                                proof {
                                    assert forall|d2: Direction|
                                        !s1[top].dirs@.contains(d2) implies #[trigger] settled(
                                        visited@,
                                        wi,
                                        hi,
                                        fc,
                                        d2,
                                    ) by {
                                        if d2 != d {
                                            assert(!fdirs.contains(d2));
                                            assert(frame_ok(s0[top], v0, wi, hi));
                                        }
                                    }
                                    assert(frame_ok(s1[top], visited@, wi, hi));
                                    assert forall|k: int| 0 <= k < s1.len() implies frame_ok(
                                        #[trigger] s1[k],
                                        visited@,
                                        wi,
                                        hi,
                                    ) by {
                                        if k != top {
                                            assert(frame_ok(s0[k], v0, wi, hi));
                                        }
                                    }
                                }
                            }
                        },
                    }
                },
            }
        }
        proof {
            let l = self.layout();
            let v = visited@;
            assert forall|a: int, b: int|
                0 <= a < wi && 0 <= b < hi && #[trigger] v[ix(wi, a, b)] implies closed(
                v,
                wi,
                hi,
                (a, b),
            ) by {}
            lemma_cover_grid(v, wi, hi, root);
            assert forall|i: int| 0 <= i < n implies v[i] by {
                let c = crate::grid::lemma_index_cell(wi, hi, i);
                assert(v[ix(wi, c.0, c.1)]);
            }
            assert forall|i: int| 0 <= i < self.cells@.len() implies self.cells@[i] by {
                assert(v[i]);
            }
            lemma_count_uniform(v, true);
            assert forall|c: (int, int)| l.in_grid(c) implies #[trigger] l.reachable(root, c) by {
                assert(v[ix(wi, c.0, c.1)]);
                assert(l.walk(root, paths[ix(wi, c.0, c.1)]) == Some(c));
            }
            lemma_connected_from_root(l, root);
        }
    }
}

} // verus!
