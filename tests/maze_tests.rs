use maze_gen::dataset::{generate_mazes, join_shards, plan_shards, shard_sizes};
use maze_gen::grid::Direction;
use maze_gen::maze::{check_size, place_endpoints, Maze, MazeError};
use rand::rngs::StdRng;
use rand::SeedableRng;
use std::collections::VecDeque;

fn rng(seed: u64) -> StdRng {
    StdRng::seed_from_u64(seed)
}

fn open_wall_count(m: &Maze) -> usize {
    m.r_walls.iter().filter(|w| !**w).count() + m.b_walls.iter().filter(|w| !**w).count()
}

/// Distances from `from` to every cell, by a search written independently of the library.
fn distances(m: &Maze, from: (usize, usize)) -> Vec<Option<usize>> {
    let w = m.width;
    let h = m.height;
    let mut dist = vec![None; w * h];
    let mut queue = VecDeque::new();
    dist[from.1 * w + from.0] = Some(0);
    queue.push_back(from);
    while let Some((x, y)) = queue.pop_front() {
        let here = dist[y * w + x].unwrap();
        let mut next = Vec::new();
        if x + 1 < w && !m.r_walls[y * w + x] {
            next.push((x + 1, y));
        }
        if x > 0 && !m.r_walls[y * w + x - 1] {
            next.push((x - 1, y));
        }
        if y + 1 < h && !m.b_walls[y * w + x] {
            next.push((x, y + 1));
        }
        if y > 0 && !m.b_walls[(y - 1) * w + x] {
            next.push((x, y - 1));
        }
        for (nx, ny) in next {
            if dist[ny * w + nx].is_none() {
                dist[ny * w + nx] = Some(here + 1);
                queue.push_back((nx, ny));
            }
        }
    }
    dist
}

fn blank(width: usize, height: usize, start: (u8, u8), end: (u8, u8)) -> Maze {
    Maze {
        width,
        height,
        cells: vec![false; width * height],
        r_walls: vec![true; width * height],
        b_walls: vec![true; width * height],
        ideal_path: vec![],
        start_pos: start,
        end_pos: end,
    }
}

fn assert_perfect(m: &Maze) {
    let n = m.width * m.height;
    assert_eq!(m.cells.len(), n);
    assert_eq!(m.r_walls.len(), n);
    assert_eq!(m.b_walls.len(), n);
    assert_eq!(open_wall_count(m), n - 1);
    for y in 0..m.height {
        assert!(m.r_walls[y * m.width + m.width - 1]);
    }
    for x in 0..m.width {
        assert!(m.b_walls[(m.height - 1) * m.width + x]);
    }
    let d = distances(m, (0, 0));
    assert!(d.iter().all(|c| c.is_some()));
    assert!(m.cells.iter().all(|c| *c));
}

#[test]
fn new_rejects_degenerate_sizes() {
    let mut r = rng(1);
    assert!(matches!(Maze::new(1, 1, &mut r), Err(MazeError::Degenerate)));
    assert!(matches!(Maze::new(0, 5, &mut r), Err(MazeError::Degenerate)));
    assert!(matches!(Maze::new(5, 0, &mut r), Err(MazeError::Degenerate)));
    assert!(matches!(Maze::new(300, 2, &mut r), Err(MazeError::TooLarge)));
    assert!(matches!(Maze::new(2, 257, &mut r), Err(MazeError::TooLarge)));
    assert_eq!(check_size(1, 1), Some(MazeError::Degenerate));
    assert_eq!(check_size(256, 256), None);
    assert!(Maze::new(1, 2, &mut r).is_ok());
    assert!(Maze::new(2, 1, &mut r).is_ok());
}

#[test]
fn generated_mazes_are_spanning_trees() {
    for (seed, (w, h)) in [(1u64, (3, 3)), (2, (9, 9)), (3, (1, 2)), (4, (2, 1)), (5, (17, 4)), (6, (256, 1)), (7, (40, 40))] {
        let m = Maze::new(w, h, &mut rng(seed)).unwrap();
        assert_eq!(m.width, w);
        assert_eq!(m.height, h);
        assert_perfect(&m);
        assert_ne!(m.start_pos, m.end_pos);
        assert!((m.start_pos.0 as usize) < w && (m.start_pos.1 as usize) < h);
        assert!((m.end_pos.0 as usize) < w && (m.end_pos.1 as usize) < h);
        assert!(m.ideal_path.is_empty());
    }
}

#[test]
fn solving_a_generated_maze_succeeds_and_replays() {
    for seed in 0..20u64 {
        let mut m = Maze::new(9, 9, &mut rng(seed)).unwrap();
        let path = m.bfs_solve().expect("a perfect maze is connected");
        assert!(m.can_follow_path());
        assert_eq!(m.ideal_path.len(), path.len());
        for (d, o) in path.iter().zip(m.ideal_path.iter()) {
            let (dx, dy) = d.to_offset();
            assert_eq!((dx as i8, dy as i8), *o);
        }
    }
}

#[test]
fn solution_length_is_graph_distance() {
    for seed in 100..130u64 {
        let mut m = Maze::new(12, 7, &mut rng(seed)).unwrap();
        let path = m.bfs_solve().unwrap();
        let d = distances(&m, (m.start_pos.0 as usize, m.start_pos.1 as usize));
        let e = m.end_pos.1 as usize * m.width + m.end_pos.0 as usize;
        assert_eq!(Some(path.len()), d[e]);
    }
}

#[test]
fn follow_check_is_idempotent() {
    let mut m = Maze::new(6, 5, &mut rng(11)).unwrap();
    let before = m.can_follow_path();
    assert_eq!(before, m.can_follow_path());
    m.bfs_solve().unwrap();
    let first = m.can_follow_path();
    let second = m.can_follow_path();
    let third = m.can_follow_path();
    assert!(first);
    assert_eq!(first, second);
    assert_eq!(second, third);
}

#[test]
fn one_by_two_maze_has_one_open_wall() {
    let mut m = Maze::new(2, 1, &mut rng(3)).unwrap();
    assert_eq!(open_wall_count(&m), 1);
    assert!(!m.r_walls[0]);
    let path = m.bfs_solve().unwrap();
    assert_eq!(path.len(), 1);
}

#[test]
fn same_seed_gives_same_maze() {
    let mut a = Maze::new(3, 3, &mut rng(42)).unwrap();
    let mut b = Maze::new(3, 3, &mut rng(42)).unwrap();
    assert_eq!(a.r_walls, b.r_walls);
    assert_eq!(a.b_walls, b.b_walls);
    assert_eq!(a.start_pos, b.start_pos);
    assert_eq!(a.end_pos, b.end_pos);
    let pa = a.bfs_solve().unwrap();
    let pb = b.bfs_solve().unwrap();
    assert_eq!(pa, pb);
    assert_eq!(a.ideal_path, b.ideal_path);
    assert_eq!(open_wall_count(&a), 8);
    let d = distances(&a, (a.start_pos.0 as usize, a.start_pos.1 as usize));
    assert_eq!(Some(pa.len()), d[a.end_pos.1 as usize * 3 + a.end_pos.0 as usize]);
}

#[test]
fn different_seeds_give_different_mazes() {
    let layouts: Vec<(Vec<bool>, Vec<bool>)> = (0..20u64)
        .map(|s| {
            let m = Maze::new(6, 6, &mut rng(s)).unwrap();
            (m.r_walls, m.b_walls)
        })
        .collect();
    assert!(layouts.iter().any(|l| *l != layouts[0]));
    let starts: Vec<(u8, u8)> = (0..20u64).map(|s| Maze::new(6, 6, &mut rng(s)).unwrap().start_pos).collect();
    assert!(starts.iter().any(|p| *p != starts[0]));
}

#[test]
fn closed_wall_forces_detour() {
    // A 2x2 grid with every inner wall open, then the wall between the two
    // top cells closed: the route from (0,0) to (1,0) must go round.
    let mut m = blank(2, 2, (0, 0), (1, 0));
    m.r_walls[0] = false;
    m.r_walls[2] = false;
    m.b_walls[0] = false;
    m.b_walls[1] = false;
    let direct = m.bfs_solve().unwrap();
    assert_eq!(direct, vec![Direction::Right]);
    m.r_walls[0] = true;
    let path = m.bfs_solve().unwrap();
    assert_eq!(path, vec![Direction::Down, Direction::Right, Direction::Up]);
    assert_eq!(m.ideal_path, vec![(0, 1), (1, 0), (0, -1)]);
    assert!(m.can_follow_path());
}

#[test]
fn unreachable_end_gives_none_and_empty_path() {
    let mut m = blank(3, 2, (0, 0), (2, 1));
    m.ideal_path = vec![(1, 0)];
    assert!(m.bfs_solve().is_none());
    assert!(m.ideal_path.is_empty());
    assert!(!m.can_follow_path());
}

#[test]
fn follow_rejects_blocked_and_malformed_steps() {
    let mut m = blank(3, 1, (0, 0), (2, 0));
    m.r_walls[0] = false;
    m.ideal_path = vec![(1, 0), (1, 0)];
    assert!(!m.can_follow_path());
    m.r_walls[1] = false;
    assert!(m.can_follow_path());
    m.ideal_path = vec![(1, 0), (1, 0), (0, 1)];
    assert!(!m.can_follow_path());
    m.ideal_path = vec![(2, 0)];
    assert!(!m.can_follow_path());
    m.ideal_path = vec![(-1, 0)];
    assert!(!m.can_follow_path());
    m.ideal_path = vec![(1, 0)];
    assert!(!m.can_follow_path());
}

#[test]
fn gen_maze_carves_a_blank_grid() {
    let mut m = blank(5, 4, (0, 0), (4, 3));
    m.gen_maze(&mut rng(9));
    assert_perfect(&m);
    assert_eq!(m.start_pos, (0, 0));
    assert_eq!(m.end_pos, (4, 3));
}

#[test]
fn set_pos_picks_distinct_cells() {
    for seed in 0..50u64 {
        let mut m = blank(2, 1, (0, 0), (0, 0));
        m.set_pos(&mut rng(seed));
        assert_ne!(m.start_pos, m.end_pos);
        assert!(m.start_pos.0 < 2 && m.end_pos.0 < 2);
        assert_eq!(m.start_pos.1, 0);
    }
    let mut m = blank(4, 4, (0, 0), (0, 0));
    m.set_pos(&mut rng(5));
    assert_ne!(m.start_pos, m.end_pos);
}

#[test]
fn is_edge_detects_leaving_the_grid() {
    let m = blank(3, 2, (0, 0), (1, 0));
    assert!(m.is_edge(&(0, 0), &(-1, 0)));
    assert!(m.is_edge(&(0, 0), &(0, -1)));
    assert!(!m.is_edge(&(0, 0), &(1, 0)));
    assert!(!m.is_edge(&(0, 0), &(0, 1)));
    assert!(m.is_edge(&(2, 1), &(1, 0)));
    assert!(m.is_edge(&(2, 1), &(0, 1)));
    assert!(!m.is_edge(&(2, 1), &(-2, -1)));
}

#[test]
fn direction_offsets() {
    assert_eq!(Direction::Left.to_offset(), (-1, 0));
    assert_eq!(Direction::Right.to_offset(), (1, 0));
    assert_eq!(Direction::Up.to_offset(), (0, -1));
    assert_eq!(Direction::Down.to_offset(), (0, 1));
    assert_eq!(Direction::Up.record_offset(), (0, -1));
    assert_eq!(Direction::Left.opposite_direction(), Direction::Right);
}

#[test]
fn shard_sizes_add_up() {
    assert_eq!(shard_sizes(10, 3), vec![3, 3, 4]);
    assert_eq!(shard_sizes(2, 4), vec![0, 0, 0, 2]);
    assert_eq!(shard_sizes(0, 1), vec![0]);
    assert_eq!(shard_sizes(1_000_000, 7).iter().sum::<usize>(), 1_000_000);
    let plan = plan_shards(25);
    assert!(!plan.is_empty());
    assert_eq!(plan.iter().sum::<usize>(), 25);
}

#[test]
fn generated_dataset_has_requested_count() {
    let v = generate_mazes(5, 4, 3, &mut rng(8)).unwrap();
    assert_eq!(v.len(), 5);
    for m in &v {
        assert_perfect(m);
        assert!(m.can_follow_path());
        assert!(!m.ideal_path.is_empty());
    }
    assert!(generate_mazes(0, 4, 3, &mut rng(8)).unwrap().is_empty());
    assert!(matches!(generate_mazes(3, 1, 1, &mut rng(8)), Err(MazeError::Degenerate)));
    assert!(matches!(generate_mazes(0, 0, 3, &mut rng(8)), Err(MazeError::Degenerate)));
    assert!(matches!(generate_mazes(2, 9, 400, &mut rng(8)), Err(MazeError::TooLarge)));
}

#[test]
fn joined_shards_keep_count_and_order() {
    let sizes = shard_sizes(7, 3);
    let shards: Vec<Vec<Maze>> = sizes
        .iter()
        .enumerate()
        .map(|(i, &n)| generate_mazes(n, 2 + i, 2, &mut rng(i as u64)).unwrap())
        .collect();
    let all = join_shards(shards);
    assert_eq!(all.len(), 7);
    let widths: Vec<usize> = all.iter().map(|m| m.width).collect();
    assert_eq!(widths, vec![2, 2, 3, 3, 4, 4, 4]);
    assert!(join_shards(vec![]).is_empty());
    assert!(join_shards(vec![vec![], vec![]]).is_empty());
}

#[test]
fn seeded_three_by_three_regression() {
    let mut m = Maze::new(3, 3, &mut rng(42)).unwrap();
    assert_eq!(m.r_walls, vec![false, false, true, false, false, true, false, true, true]);
    assert_eq!(m.b_walls, vec![false, true, true, false, true, false, true, true, true]);
    assert_eq!(m.start_pos, (0, 0));
    assert_eq!(m.end_pos, (1, 1));
    let path = m.bfs_solve().unwrap();
    assert_eq!(path, vec![Direction::Down, Direction::Right]);
    assert_eq!(m.ideal_path, vec![(0, 1), (1, 0)]);
    assert!(m.can_follow_path());
}

#[test]
fn index_and_position_are_inverse() {
    let m = blank(4, 3, (0, 0), (1, 0));
    assert_eq!(m.index(0, 0), 0);
    assert_eq!(m.index(3, 0), 3);
    assert_eq!(m.index(1, 2), 9);
    assert_eq!(m.position(9), (1, 2));
    assert_eq!(m.position(11), (3, 2));
    for i in 0..12 {
        let (x, y) = m.position(i);
        assert_eq!(m.index(x, y), i);
    }
}

#[test]
fn clone_copies_every_field() {
    let mut m = Maze::new(5, 4, &mut rng(21)).unwrap();
    m.bfs_solve().unwrap();
    let c = m.clone();
    assert_eq!(c.width, 5);
    assert_eq!(c.height, 4);
    assert_eq!(c.cells, m.cells);
    assert_eq!(c.r_walls, m.r_walls);
    assert_eq!(c.b_walls, m.b_walls);
    assert_eq!(c.ideal_path, m.ideal_path);
    assert_eq!(c.start_pos, m.start_pos);
    assert_eq!(c.end_pos, m.end_pos);
    assert_eq!(c.can_follow_path(), m.can_follow_path());
}

#[test]
fn place_endpoints_skips_the_start() {
    assert_eq!(place_endpoints(3, 2, 4, 4), ((1, 1), (2, 1)));
    assert_eq!(place_endpoints(3, 2, 4, 2), ((1, 1), (2, 0)));
    assert_eq!(place_endpoints(3, 2, 0, 0), ((0, 0), (1, 0)));
    assert_eq!(place_endpoints(1, 2, 1, 0), ((0, 1), (0, 0)));
    assert_eq!(place_endpoints(2, 1, 0, 0), ((0, 0), (1, 0)));
}
