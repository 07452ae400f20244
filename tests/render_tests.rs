use maze_gen::marks::{framed_rows, mark_rows, sparse_rows};
use maze_gen::maze::Maze;

fn sample() -> Maze {
    Maze {
        width: 2,
        height: 2,
        cells: vec![false; 4],
        r_walls: vec![false, true, true, true],
        b_walls: vec![true, false, true, true],
        ideal_path: vec![],
        start_pos: (0, 0),
        end_pos: (1, 1),
    }
}

#[test]
fn render_draws_walls_and_endpoints() {
    let m = sample();
    let text = String::from_utf8(m.render()).unwrap();
    assert_eq!(text, " - -\n|S  |\n -   \n| |E|\n - - \n");
}

#[test]
fn render_marks_visited_cells() {
    let mut m = sample();
    m.cells = vec![true, true, false, true];
    m.start_pos = (1, 0);
    m.end_pos = (0, 1);
    let text = String::from_utf8(m.render()).unwrap();
    assert_eq!(text, " - -\n|* S|\n -   \n|E|*|\n - - \n");
}

#[test]
fn z_render_inverts_and_marks_endpoint_cells() {
    let m = sample();
    let text = String::from_utf8(m.z_render()).unwrap();
    assert_eq!(text, " - -\n|S|* \n   - \n|* E \n     \n");
}

#[test]
fn well_formedness_check() {
    let mut m = sample();
    assert!(m.is_well_formed());
    m.end_pos = (2, 0);
    assert!(!m.is_well_formed());
    m.end_pos = (1, 1);
    m.cells.pop();
    assert!(!m.is_well_formed());
    m.cells.push(false);
    m.width = 0;
    assert!(!m.is_well_formed());
}

#[test]
fn mark_rows_draws_clear_flags() {
    let text = String::from_utf8(mark_rows(&vec![false, true, true, false], 2, 2)).unwrap();
    assert_eq!(text, "* \n *\n");
    assert!(mark_rows(&vec![], 3, 0).is_empty());
}

#[test]
fn framed_and_sparse_rows() {
    let marks = vec![false, true];
    let right = vec![false, true];
    let below = vec![false, true];
    assert_eq!(String::from_utf8(framed_rows(&marks, &right, &below, 2, 1)).unwrap(), "*|  \n__  \n");
    assert_eq!(String::from_utf8(sparse_rows(&marks, &right, &below, 2, 1)).unwrap(), "*| \n__  \n");
}

#[test]
fn z_render_marks_endpoints_below_the_first_row() {
    let m = Maze {
        width: 1,
        height: 2,
        cells: vec![false, false],
        r_walls: vec![true, true],
        b_walls: vec![false, true],
        ideal_path: vec![],
        start_pos: (0, 1),
        end_pos: (0, 0),
    };
    let text = String::from_utf8(m.z_render()).unwrap();
    assert_eq!(text, " -\n|E \n - \n|S \n   \n");
}
