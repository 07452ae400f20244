//! Properties that relate several operations on a maze.

use crate::grid::{lemma_follow_offsets, lemma_walk_parity, offsets, step, Direction};
use crate::maze::Maze;
use vstd::prelude::*;

verus! {

/// In a perfect maze every cell reaches every other, so the search from
/// `start_pos` always finds `end_pos` (and `bfs_solve` returns `Some`).
pub proof fn lemma_perfect_maze_solvable(m: Maze)
    requires
        m.wf(),
        m.layout().is_perfect(),
    ensures
        m.layout().reachable(m.start(), m.end()),
{
    assert(m.layout().in_grid(m.start()) && m.layout().in_grid(m.end()));
}

/// A solution stored as the offsets of a walk from the start to the end
/// replays successfully (`can_follow_path` returns `true` after solving).
pub proof fn lemma_solution_replays(m: Maze, path: Seq<Direction>)
    requires
        m.layout().walk(m.start(), path) == Some(m.end()),
        m.ideal_path@ == offsets(path),
    ensures
        m.path_followed(),
{
    lemma_follow_offsets(m.layout(), m.start(), path);
}

/// Replaying the solution depends only on the walls, the endpoints and the
/// recorded path: checking twice an unchanged maze gives the same answer.
pub proof fn lemma_replay_stable(a: Maze, b: Maze)
    requires
        a.layout() == b.layout(),
        a.start_pos == b.start_pos,
        a.end_pos == b.end_pos,
        a.ideal_path@ == b.ideal_path@,
    ensures
        a.path_followed() == b.path_followed(),
{
}

/// With the end next to the start but the wall between them closed, every
/// route from start to end (the one `bfs_solve` returns among them) goes
/// round: its length is odd and at least three.
pub proof fn lemma_detour_around_closed_wall(m: Maze, d: Direction, path: Seq<Direction>)
    requires
        step(m.start(), d) == m.end(),
        m.layout().wall_closed(m.start(), d),
        m.layout().walk(m.start(), path) == Some(m.end()),
    ensures
        path.len() >= 3,
        path.len() % 2 == 1,
{
    let l = m.layout();
    lemma_walk_parity(l, m.start(), path);
    if path.len() == 1 {
        let next = step(m.start(), path[0]);
        assert(path.drop_first() =~= Seq::<Direction>::empty());
        assert(l.can_step(m.start(), path[0]));
        assert(l.walk(next, path.drop_first()) == Some(next));
        assert(step(m.start(), path[0]) == m.end());
        assert(path[0] == d);
    }
}

} // verus!
