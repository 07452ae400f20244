//! Shortest paths by breadth-first search over the open passages.

use crate::generate::filled;
use crate::grid::{
    count_of, ix, lemma_count_bound, lemma_count_flip, lemma_count_uniform, lemma_follow_offsets,
    lemma_ix_bounds, lemma_walk_push, offset_of, offsets, step, Direction, Layout,
};
use crate::maze::{lemma_grid_size, Maze};
use vstd::prelude::*;

verus! {

/// The order in which the search tries the moves out of a cell.
pub open spec fn search_order(j: int) -> Direction {
    if j == 0 {
        Direction::Left
    } else if j == 1 {
        Direction::Right
    } else if j == 2 {
        Direction::Up
    } else {
        Direction::Down
    }
}

fn direction_at(j: usize) -> (r: Direction)
    ensures
        r == search_order(j as int),
{
    if j == 0 {
        Direction::Left
    } else if j == 1 {
        Direction::Right
    } else if j == 2 {
        Direction::Up
    } else {
        Direction::Down
    }
}

/// Every open move out of `p` reaches a seen cell at most one step farther.
pub open spec fn expanded(l: Layout, seen: Seq<bool>, dist: Seq<usize>, p: (int, int)) -> bool {
    forall|d: Direction|
        #[trigger] l.can_step(p, d) ==> seen[ix(l.width, step(p, d).0, step(p, d).1)] && dist[ix(
            l.width,
            step(p, d).0,
            step(p, d).1,
        )] <= dist[ix(l.width, p.0, p.1)] + 1
}

/// When every seen cell is expanded, every walk from the source ends on a
/// seen cell whose distance is at most the walk's length.
proof fn lemma_bfs_lower_bound(
    l: Layout,
    seen: Seq<bool>,
    dist: Seq<usize>,
    s: (int, int),
    moves: Seq<Direction>,
)
    requires
        l.in_grid(s),
        seen[ix(l.width, s.0, s.1)],
        dist[ix(l.width, s.0, s.1)] == 0,
        forall|x: int, y: int|
            0 <= x < l.width && 0 <= y < l.height && #[trigger] seen[ix(l.width, x, y)] ==> expanded(
                l,
                seen,
                dist,
                (x, y),
            ),
        l.walk(s, moves) is Some,
    ensures
        match l.walk(s, moves) {
            Some(q) => l.in_grid(q) && seen[ix(l.width, q.0, q.1)] && dist[ix(l.width, q.0, q.1)]
                <= moves.len(),
            None => false,
        },
    decreases moves.len(),
{
    if moves.len() > 0 {
        let init = moves.drop_last();
        let d = moves.last();
        assert(moves =~= init.push(d));
        lemma_walk_push(l, s, init, d);
        lemma_bfs_lower_bound(l, seen, dist, s, init);
        let q = l.walk(s, init)->0;
        assert(expanded(l, seen, dist, q));
        assert(l.can_step(q, d));
    }
}

/// The state of a breadth-first search: which cells are seen, their
/// distance from the source, the move that first reached each, and the queue
/// of seen cells in the order they were found. `qpos` gives each seen cell's
/// place in the queue.
struct Search {
    seen: Vec<bool>,
    dist: Vec<usize>,
    parent: Vec<Direction>,
    queue: Vec<(usize, usize)>,
    qpos: Ghost<Seq<int>>,
}

spec fn cell_of(q: (usize, usize)) -> (int, int) {
    (q.0 as int, q.1 as int)
}

impl Search {
    spec fn d_at(&self, w: int, c: (int, int)) -> int {
        self.dist@[ix(w, c.0, c.1)] as int
    }

    spec fn seen_at(&self, w: int, c: (int, int)) -> bool {
        self.seen@[ix(w, c.0, c.1)]
    }

    /// The search invariant, with the cells before `head` in the queue expanded.
    #[verifier::opaque]
    spec fn inv(&self, l: Layout, s: (int, int), head: int) -> bool {
        let w = l.width;
        let n = l.width * l.height;
        let q = self.queue@;
        &&& l.sized()
        &&& l.in_grid(s)
        &&& self.seen@.len() == n
        &&& self.dist@.len() == n
        &&& self.parent@.len() == n
        &&& self.qpos@.len() == n
        &&& 0 <= head <= q.len()
        &&& q.len() == count_of(self.seen@, true)
        &&& count_of(self.seen@, true) <= n
        &&& self.seen_at(w, s)
        &&& self.d_at(w, s) == 0
        &&& forall|x: int, y: int| 0 <= x < w && 0 <= y < l.height ==> 0 <= #[trigger] ix(w, x, y) < n
        &&& forall|k: int|
            #![trigger q[k]]
            0 <= k < q.len() ==> {
                &&& l.in_grid(cell_of(q[k]))
                &&& self.seen_at(w, cell_of(q[k]))
                &&& self.qpos@[ix(w, cell_of(q[k]).0, cell_of(q[k]).1)] == k
                &&& self.d_at(w, cell_of(q[k])) <= k
            }
        &&& forall|x: int, y: int|
            #![trigger self.seen@[ix(w, x, y)]]
            0 <= x < w && 0 <= y < l.height && self.seen@[ix(w, x, y)] ==> {
                let k = self.qpos@[ix(w, x, y)];
                &&& 0 <= k < q.len()
                &&& cell_of(q[k]) == (x, y)
            }
        &&& forall|i: int, j: int|
            0 <= i <= j < q.len() ==> self.d_at(w, cell_of(#[trigger] q[i])) <= self.d_at(
                w,
                cell_of(#[trigger] q[j]),
            )
        &&& head < q.len() ==> self.d_at(w, cell_of(q[q.len() - 1])) <= self.d_at(
            w,
            cell_of(q[head]),
        ) + 1
        &&& forall|x: int, y: int|
            #![trigger self.parent@[ix(w, x, y)]]
            0 <= x < w && 0 <= y < l.height && self.seen@[ix(w, x, y)] && (x, y) != s ==> {
                let d = self.parent@[ix(w, x, y)];
                let p = step((x, y), d.opposite());
                &&& l.in_grid(p)
                &&& self.seen_at(w, p)
                &&& self.d_at(w, p) + 1 == self.d_at(w, (x, y))
                &&& l.can_step(p, d)
                &&& step(p, d) == (x, y)
            }
        &&& forall|k: int|
            0 <= k < head ==> expanded(l, self.seen@, self.dist@, cell_of(#[trigger] q[k]))
    }

    /// A search with only the source `s` seen.
    fn start(maze: &Maze, sx: usize, sy: usize) -> (r: Search)
        requires
            maze.wf(),
            sx < maze.width,
            sy < maze.height,
        ensures
            r.inv(maze.layout(), (sx as int, sy as int), 0),
            r.queue@.len() == 1,
    {
        let w = maze.width;
        let h = maze.height;
        proof {
            lemma_grid_size(w as int, h as int);
        }
        let n = w * h;
        let ghost wi = w as int;
        let ghost hi = h as int;
        let ghost s = (sx as int, sy as int);
        let mut seen: Vec<bool> = filled(n, false);
        let dist: Vec<usize> = filled(n, 0usize);
        let parent: Vec<Direction> = filled(n, Direction::Left);
        let mut queue: Vec<(usize, usize)> = Vec::new();
        let si = maze.index(sx, sy);
        proof {
            lemma_count_uniform(seen@, false);
            lemma_count_flip(seen@, si as int, true);
            assert forall|x: int, y: int| 0 <= x < wi && 0 <= y < hi implies 0 <= #[trigger] ix(
                wi,
                x,
                y,
            ) < n by {
                lemma_ix_bounds(wi, hi, x, y);
            }
        }
        seen.set(si, true);
        queue.push((sx, sy));
        let r = Search { seen, dist, parent, queue, qpos: Ghost(Seq::new(n as nat, |i: int| 0int)) };
        proof {
            assert forall|x: int, y: int|
                #![trigger r.seen@[ix(wi, x, y)]]
                0 <= x < wi && 0 <= y < hi && r.seen@[ix(wi, x, y)] implies (x, y) == s by {
                if ix(wi, x, y) != si {
                    assert(r.seen@[ix(wi, x, y)] == false);
                }
                crate::grid::lemma_ix_injective(wi, x, y, s.0, s.1);
            }
            assert(r.queue@[0] == (sx, sy));
            reveal(Search::inv);
        }
        r
    }

    /// Tries the move from `c`, the cell at `head` in the queue, in direction
    /// `d`: a neighbour seen for the first time gets distance one more than
    /// `c`, `d` as its first move, and a place at the back of the queue.
    fn relax(&mut self, maze: &Maze, c: (usize, usize), d: Direction, Ghost(head): Ghost<int>)
        requires
            maze.wf(),
            old(self).inv(maze.layout(), maze.start(), head),
            0 <= head < old(self).queue@.len(),
            old(self).queue@[head] == c,
        ensures
            final(self).inv(maze.layout(), maze.start(), head),
            final(self).queue@.len() >= old(self).queue@.len(),
            final(self).queue@[head] == c,
            forall|i: int|
                0 <= i < old(self).seen@.len() && old(self).seen@[i] ==> final(self).seen@[i]
                    && final(self).dist@[i] == old(self).dist@[i],
            maze.layout().can_step(cell_of(c), d) ==> final(self).seen_at(
                maze.width as int,
                step(cell_of(c), d),
            ) && final(self).d_at(maze.width as int, step(cell_of(c), d)) <= final(self).d_at(
                maze.width as int,
                cell_of(c),
            ) + 1,
    {
        let ghost l = maze.layout();
        let ghost wi = maze.width as int;
        let ghost hi = maze.height as int;
        let ghost s = maze.start();
        let ghost cc = cell_of(c);
        proof {
            reveal(Search::inv);
            assert(l.in_grid(cc));
        }
        if maze.can_move((c.0 as u8, c.1 as u8), d) {
            let q = maze.neighbor(c.0, c.1, d).unwrap();
            let ghost qc = cell_of(q);
            let qi = maze.index(q.0, q.1);
            let ci = maze.index(c.0, c.1);
            if !self.seen[qi] {
                let ghost old_self = *self;
                let ghost s0 = self.seen@;
                let ghost d0 = self.dist@;
                let ghost parents0 = self.parent@;
                let ghost q0 = self.queue@;
                proof {
                    lemma_grid_size(wi, hi);
                    assert(self.queue@[head] == c);
                    assert(self.d_at(wi, cc) <= head);
                    assert(ci as int == ix(wi, cc.0, cc.1));
                }
                let nd = self.dist[ci] + 1;
                proof {
                    lemma_count_flip(s0, qi as int, true);
                    lemma_count_bound(s0.update(qi as int, true), true);
                }
                self.seen.set(qi, true);
                self.dist.set(qi, nd);
                self.parent.set(qi, d);
                proof {
                    self.qpos@ = self.qpos@.update(qi as int, q0.len() as int);
                }
                self.queue.push(q);
                proof {
                    crate::grid::lemma_step_back(l, cc, d);
                    let w = wi;
                    assert forall|x: int, y: int|
                        #![trigger self.seen@[ix(w, x, y)]]
                        0 <= x < w && 0 <= y < hi && self.seen@[ix(w, x, y)] implies {
                            let k = self.qpos@[ix(w, x, y)];
                            &&& 0 <= k < self.queue@.len()
                            &&& cell_of(self.queue@[k]) == (x, y)
                        } by {
                        if ix(w, x, y) == qi as int {
                            crate::grid::lemma_ix_injective(w, x, y, qc.0, qc.1);
                        } else {
                            assert(s0[ix(w, x, y)]);
                        }
                    }
                    assert forall|x: int, y: int|
                        #![trigger self.parent@[ix(w, x, y)]]
                        0 <= x < w && 0 <= y < hi && self.seen@[ix(w, x, y)] && (x, y) != s implies {
                            let d = self.parent@[ix(w, x, y)];
                            let p = step((x, y), d.opposite());
                            &&& l.in_grid(p)
                            &&& self.seen_at(w, p)
                            &&& self.d_at(w, p) + 1 == self.d_at(w, (x, y))
                            &&& l.can_step(p, d)
                            &&& step(p, d) == (x, y)
                        } by {
                        if ix(w, x, y) == qi as int {
                            crate::grid::lemma_ix_injective(w, x, y, qc.0, qc.1);
                        } else {
                            assert(s0[ix(w, x, y)]);
                            let pd = parents0[ix(w, x, y)];
                            let p = step((x, y), pd.opposite());
                            assert(s0[ix(w, p.0, p.1)]);
                        }
                    }
                    assert forall|k: int|
                        #![trigger self.queue@[k]]
                        0 <= k < self.queue@.len() implies {
                            &&& l.in_grid(cell_of(self.queue@[k]))
                            &&& self.seen_at(w, cell_of(self.queue@[k]))
                            &&& self.qpos@[ix(w, cell_of(self.queue@[k]).0, cell_of(self.queue@[k]).1)] == k
                            &&& self.d_at(w, cell_of(self.queue@[k])) <= k
                        } by {
                        if k < q0.len() {
                            assert(self.queue@[k] == q0[k]);
                            assert(s0[ix(w, cell_of(q0[k]).0, cell_of(q0[k]).1)]);
                        }
                    }
                    let last0 = q0[q0.len() - 1];
                    assert(s0[ix(w, cell_of(last0).0, cell_of(last0).1)]);
                    assert forall|i: int, j: int|
                        0 <= i <= j < self.queue@.len() implies self.d_at(
                            w,
                            cell_of(#[trigger] self.queue@[i]),
                        ) <= self.d_at(w, cell_of(#[trigger] self.queue@[j])) by {
                        if i < q0.len() {
                            assert(self.queue@[i] == q0[i]);
                            assert(s0[ix(w, cell_of(q0[i]).0, cell_of(q0[i]).1)]);
                            if j < q0.len() {
                                assert(self.queue@[j] == q0[j]);
                                assert(s0[ix(w, cell_of(q0[j]).0, cell_of(q0[j]).1)]);
                                assert(old_self.d_at(w, cell_of(q0[i])) <= old_self.d_at(w, cell_of(q0[j])));
                            } else {
                                assert(old_self.d_at(w, cell_of(q0[i])) <= old_self.d_at(w, cell_of(last0)));
                            }
                        }
                    }
                    assert forall|k: int|
                        0 <= k < head implies expanded(
                            l,
                            self.seen@,
                            self.dist@,
                            cell_of(#[trigger] self.queue@[k]),
                        ) by {
                        assert(self.queue@[k] == q0[k]);
                        let ck = cell_of(q0[k]);
                        assert(expanded(l, s0, d0, ck));
                        assert(s0[ix(w, ck.0, ck.1)]);
                        assert forall|d2: Direction| #[trigger] l.can_step(ck, d2) implies self.seen@[ix(
                            w,
                            step(ck, d2).0,
                            step(ck, d2).1,
                        )] && self.dist@[ix(w, step(ck, d2).0, step(ck, d2).1)] <= self.dist@[ix(
                            w,
                            ck.0,
                            ck.1,
                        )] + 1 by {
                            assert(s0[ix(w, step(ck, d2).0, step(ck, d2).1)]);
                        }
                    }
                    assert(self.queue@[head] == q0[head]);
                    assert(s0[ix(w, cc.0, cc.1)]);
                    assert(self.d_at(w, cc) == old_self.d_at(w, cc));
                    reveal(Search::inv);
                }
            } else {
                proof {
                    let w = wi;
                    let k = self.qpos@[qi as int];
                    assert(self.seen@[ix(w, qc.0, qc.1)]);
                    assert(cell_of(self.queue@[k]) == qc);
                    let last = self.queue@[self.queue@.len() - 1];
                    assert(self.d_at(w, qc) <= self.d_at(w, cell_of(last)));
                }
            }
        }
    }

    /// Once the cell at `head` is expanded, the search may move past it.
    proof fn lemma_advance(&self, l: Layout, s: (int, int), head: int)
        requires
            self.inv(l, s, head),
            0 <= head < self.queue@.len(),
            expanded(l, self.seen@, self.dist@, cell_of(self.queue@[head])),
        ensures
            self.inv(l, s, head + 1),
    {
        reveal(Search::inv);
        let q = self.queue@;
        if head + 1 < q.len() {
            assert(self.d_at(l.width, cell_of(q[head])) <= self.d_at(l.width, cell_of(q[head + 1])));
        }
        assert forall|k: int| 0 <= k < head + 1 implies expanded(
            l,
            self.seen@,
            self.dist@,
            cell_of(#[trigger] q[k]),
        ) by {}
    }

    /// When the whole queue is expanded, every seen cell is.
    proof fn lemma_done(&self, l: Layout, s: (int, int))
        requires
            self.inv(l, s, self.queue@.len() as int),
        ensures
            forall|x: int, y: int|
                0 <= x < l.width && 0 <= y < l.height && #[trigger] self.seen@[ix(l.width, x, y)]
                    ==> expanded(l, self.seen@, self.dist@, (x, y)),
    {
        reveal(Search::inv);
        assert forall|x: int, y: int|
            0 <= x < l.width && 0 <= y < l.height && #[trigger] self.seen@[ix(l.width, x, y)] implies expanded(
            l,
            self.seen@,
            self.dist@,
            (x, y),
        ) by {
            let k = self.qpos@[ix(l.width, x, y)];
            assert(cell_of(self.queue@[k]) == (x, y));
        }
    }
}

impl Maze {
    /// Breadth-first search from `start_pos` to `end_pos` over open passages,
    /// trying moves in the order left, right, up, down. On success the moves
    /// of a shortest route are returned and stored, as offsets, in
    /// `ideal_path`; when `end_pos` cannot be reached the result is `None` and
    /// `ideal_path` is left empty.
    pub fn bfs_solve(&mut self) -> (r: Option<Vec<Direction>>)
        requires
            old(self).wf(),
        ensures
            final(self).wf(),
            final(self).width == old(self).width,
            final(self).height == old(self).height,
            final(self).cells@ == old(self).cells@,
            final(self).r_walls@ == old(self).r_walls@,
            final(self).b_walls@ == old(self).b_walls@,
            final(self).start_pos == old(self).start_pos,
            final(self).end_pos == old(self).end_pos,
            r is Some <==> old(self).layout().reachable(old(self).start(), old(self).end()),
            match r {
                Some(p) => old(self).layout().is_shortest(old(self).start(), old(self).end(), p@)
                    && final(self).ideal_path@ == offsets(p@),
                None => final(self).ideal_path@.len() == 0,
            },
            r is Some ==> final(self).path_followed(),
    {
        let ghost l = self.layout();
        let ghost s = self.start();
        let sx = self.start_pos.0 as usize;
        let sy = self.start_pos.1 as usize;
        let mut search = Search::start(self, sx, sy);
        let mut head: usize = 0;
        proof {
            reveal(Search::inv);
        }
        while head < search.queue.len()
            invariant
                self.wf(),
                l == self.layout(),
                s == self.start(),
                search.inv(l, s, head as int),
                search.queue@.len() <= self.width * self.height,
            decreases self.width * self.height - head,
        {
            let c = search.queue[head];
            let mut j: usize = 0;
            while j < 4
                invariant
                    self.wf(),
                    l == self.layout(),
                    s == self.start(),
                    j <= 4,
                    head < search.queue@.len(),
                    search.queue@[head as int] == c,
                    search.inv(l, s, head as int),
                    forall|jj: int|
                        0 <= jj < j && #[trigger] l.can_step(cell_of(c), search_order(jj))
                            ==> search.seen_at(l.width, step(cell_of(c), search_order(jj)))
                            && search.d_at(l.width, step(cell_of(c), search_order(jj)))
                            <= search.d_at(l.width, cell_of(c)) + 1,
                decreases 4 - j,
            {
                let d = direction_at(j);
                let ghost before = search;
                search.relax(self, c, d, Ghost(head as int));
                proof {
                    reveal(Search::inv);
                    let cc = cell_of(c);
                    assert(before.seen@[ix(l.width, cc.0, cc.1)]);
                    assert forall|jj: int|
                        0 <= jj < j + 1 && #[trigger] l.can_step(cc, search_order(jj)) implies search.seen_at(
                            l.width,
                            step(cc, search_order(jj)),
                        ) && search.d_at(l.width, step(cc, search_order(jj))) <= search.d_at(
                            l.width,
                            cc,
                        ) + 1 by {
                        if jj < j {
                            let t = step(cc, search_order(jj));
                            assert(before.seen@[ix(l.width, t.0, t.1)]);
                        }
                    }
                }
                j = j + 1;
            }
            proof {
                let cc = cell_of(c);
                assert forall|d: Direction| #[trigger] l.can_step(cc, d) implies search.seen@[ix(
                    l.width,
                    step(cc, d).0,
                    step(cc, d).1,
                )] && search.dist@[ix(l.width, step(cc, d).0, step(cc, d).1)] <= search.dist@[ix(
                    l.width,
                    cc.0,
                    cc.1,
                )] + 1 by {
                    let jj: int = match d {
                        Direction::Left => 0,
                        Direction::Right => 1,
                        Direction::Up => 2,
                        Direction::Down => 3,
                    };
                    assert(search_order(jj) == d);
                }
                search.lemma_advance(l, s, head as int);
                reveal(Search::inv);
            }
            head = head + 1;
        }
        proof {
            search.lemma_done(l, s);
            reveal(Search::inv);
        }
        let ghost seen_f = search.seen@;
        let ghost dist_f = search.dist@;
        let ghost wi = self.width as int;
        let ex = self.end_pos.0 as usize;
        let ey = self.end_pos.1 as usize;
        let ghost e = (ex as int, ey as int);
        let ei = self.index(ex, ey);
        if !search.seen[ei] {
            proof {
                if l.reachable(s, e) {
                    let m = choose|m: Seq<Direction>| l.walk(s, m) == Some(e);
                    lemma_bfs_lower_bound(l, seen_f, dist_f, s, m);
                }
            }
            self.ideal_path = Vec::new();
            return None;
        }
        let len = search.dist[ei];
        let mut path: Vec<Direction> = filled(len, Direction::Left);
        let mut cx = ex;
        let mut cy = ey;
        proof {
            assert(path@.subrange(len as int, len as int) =~= Seq::<Direction>::empty());
        }
        while !(cx == sx && cy == sy)
            invariant
                self.wf(),
                l == self.layout(),
                wi == self.width,
                s == (sx as int, sy as int),
                e == (ex as int, ey as int),
                search.inv(l, s, search.queue@.len() as int),
                seen_f == search.seen@,
                dist_f == search.dist@,
                l.in_grid((cx as int, cy as int)),
                seen_f[ix(wi, cx as int, cy as int)],
                dist_f[ix(wi, cx as int, cy as int)] <= len,
                path@.len() == len,
                l.walk(
                    (cx as int, cy as int),
                    path@.subrange(dist_f[ix(wi, cx as int, cy as int)] as int, len as int),
                ) == Some(e),
            decreases dist_f[ix(wi, cx as int, cy as int)],
        {
            proof {
                reveal(Search::inv);
            }
            let ci = self.index(cx, cy);
            let d = search.parent[ci];
            let k = search.dist[ci] - 1;
            let ghost old_path = path@;
            path.set(k, d);
            let back = d.opposite_direction();
            let p = self.neighbor(cx, cy, back).unwrap();
            proof {
                let suffix = path@.subrange(k as int, len as int);
                assert(suffix[0] == d);
                assert(suffix.drop_first() =~= old_path.subrange(k + 1, len as int));
            }
            cx = p.0;
            cy = p.1;
        }
        proof {
            reveal(Search::inv);
            assert(path@.subrange(0, len as int) =~= path@);
            assert forall|other: Seq<Direction>| l.walk(s, other) == Some(e) implies path@.len()
                <= other.len() by {
                lemma_bfs_lower_bound(l, seen_f, dist_f, s, other);
            }
        }
        let mut record: Vec<(i8, i8)> = Vec::new();
        let mut i: usize = 0;
        while i < path.len()
            invariant
                i <= path@.len(),
                record@.len() == i,
                forall|t: int| 0 <= t < i ==> record@[t] == offset_of(path@[t]),
            decreases path@.len() - i,
        {
            record.push(path[i].record_offset());
            i = i + 1;
        }
        proof {
            assert(record@ =~= offsets(path@));
            lemma_follow_offsets(l, s, path@);
        }
        self.ideal_path = record;
        Some(path)
    }
}

} // verus!
