//! Tests of the maze model, the generator, and the breadth-first solver on
//! fixed layouts, plus the configuration validators.

use maze::config::{is_algo, is_number, parse_usize, Config, SearchAlgo};
use maze::matrix::{Cell, Direction, Matrix};
use maze::solver::BFSSolver;

/// A 5x5 grid whose whole 3x3 interior is free.
fn open_5x5(start: Cell, finish: Cell) -> Matrix {
    let mut rows: Vec<Vec<bool>> = Vec::new();
    for r in 0..5usize {
        let mut row: Vec<bool> = Vec::new();
        for c in 0..5usize {
            row.push(r >= 1 && r <= 3 && c >= 1 && c <= 3);
        }
        rows.push(row);
    }
    Matrix::from_layout(5, 5, rows, start, finish).expect("layout must be accepted")
}

/// A 5x5 grid whose interior middle column is blocked: a complete wall
/// between the left and the right free cells.
fn walled_5x5(start: Cell, finish: Cell) -> Matrix {
    let mut rows: Vec<Vec<bool>> = Vec::new();
    for r in 0..5usize {
        let mut row: Vec<bool> = Vec::new();
        for c in 0..5usize {
            row.push(r >= 1 && r <= 3 && (c == 1 || c == 3));
        }
        rows.push(row);
    }
    Matrix::from_layout(5, 5, rows, start, finish).expect("layout must be accepted")
}

#[test]
fn get_dirs_order_is_fixed() {
    let dirs = Direction::get_dirs();
    assert_eq!(dirs.len(), 4);
    assert!(matches!(dirs[0], Direction::Up));
    assert!(matches!(dirs[1], Direction::Down));
    assert!(matches!(dirs[2], Direction::Left));
    assert!(matches!(dirs[3], Direction::Right));
}

#[test]
fn reverse_swaps_each_direction() {
    assert!(matches!(Direction::Up.reverse(), Direction::Down));
    assert!(matches!(Direction::Down.reverse(), Direction::Up));
    assert!(matches!(Direction::Left.reverse(), Direction::Right));
    assert!(matches!(Direction::Right.reverse(), Direction::Left));
}

#[test]
fn move_dir_applies_unit_deltas() {
    let c = Cell(2, 3);
    assert_eq!(c.move_dir(Direction::Up), Cell(3, 3));
    assert_eq!(c.move_dir(Direction::Down), Cell(1, 3));
    assert_eq!(c.move_dir(Direction::Left), Cell(2, 2));
    assert_eq!(c.move_dir(Direction::Right), Cell(2, 4));
}

#[test]
fn move_then_reverse_returns_home() {
    let c = Cell(7, -2);
    for dir in Direction::get_dirs() {
        assert_eq!(c.move_dir(dir).move_dir(dir.reverse()), c);
    }
}

#[test]
fn inside_is_false_outside_bounds() {
    let m = open_5x5(Cell(1, 1), Cell(3, 3));
    assert!(m.inside(Cell(0, 0)));
    assert!(m.inside(Cell(4, 4)));
    assert!(!m.inside(Cell(-1, 0)));
    assert!(!m.inside(Cell(0, -1)));
    assert!(!m.inside(Cell(5, 0)));
    assert!(!m.inside(Cell(0, 5)));
    assert!(!m.inside(Cell(-100, 200)));
}

#[test]
fn is_free_cell_is_total_and_false_out_of_bounds() {
    let m = open_5x5(Cell(1, 1), Cell(3, 3));
    assert!(!m.is_free_cell(Cell(-1, 2)));
    assert!(!m.is_free_cell(Cell(2, -1)));
    assert!(!m.is_free_cell(Cell(5, 2)));
    assert!(!m.is_free_cell(Cell(2, 5)));
    assert!(!m.is_free_cell(Cell(isize::MIN, isize::MAX)));
    assert!(m.is_free_cell(Cell(2, 2)));
}

#[test]
fn border_cells_are_blocked() {
    let m = open_5x5(Cell(1, 1), Cell(3, 3));
    for r in 0..5isize {
        for c in 0..5isize {
            if r == 0 || r == 4 || c == 0 || c == 4 {
                assert!(!m.is_free_cell(Cell(r, c)));
            }
        }
    }
}

#[test]
fn from_layout_rejects_bad_layouts() {
    // Too small: no interior cell can exist.
    assert!(Matrix::from_layout(2, 5, vec![], Cell(0, 0), Cell(0, 0)).is_none());
    // Row count does not match.
    assert!(Matrix::from_layout(5, 5, vec![], Cell(1, 1), Cell(1, 1)).is_none());
    // A free cell on the border.
    let mut rows: Vec<Vec<bool>> = Vec::new();
    for r in 0..5usize {
        let mut row: Vec<bool> = Vec::new();
        for c in 0..5usize {
            row.push(r == 0 && c == 0 || r == 2 && c == 2);
        }
        rows.push(row);
    }
    assert!(Matrix::from_layout(5, 5, rows, Cell(2, 2), Cell(2, 2)).is_none());
    // A blocked start cell.
    let mut rows2: Vec<Vec<bool>> = Vec::new();
    for r in 0..5usize {
        let mut row: Vec<bool> = Vec::new();
        for c in 0..5usize {
            row.push(r == 2 && c == 2);
        }
        rows2.push(row);
    }
    assert!(Matrix::from_layout(5, 5, rows2, Cell(1, 1), Cell(2, 2)).is_none());
}

#[test]
fn generated_grid_satisfies_the_invariants() {
    let m = Matrix::new(8, 15).expect("an 8x15 grid has interior cells often enough; retry");
    assert_eq!(m.n_rows, 8);
    assert_eq!(m.n_cols, 15);
    for r in 0..8isize {
        for c in 0..15isize {
            if r == 0 || r == 7 || c == 0 || c == 14 {
                assert!(!m.is_free_cell(Cell(r, c)));
            }
        }
    }
    assert!(m.inside(m.start) && m.is_free_cell(m.start));
    assert!(m.inside(m.finish) && m.is_free_cell(m.finish));
}

#[test]
fn solve_open_grid_finds_shortest_path() {
    let m = open_5x5(Cell(1, 1), Cell(3, 3));
    let solver = BFSSolver::new(&m);
    let (visits, path) = solver.solve();
    let path = path.expect("a route exists in the open grid");
    // Shortest path: 4 moves, 5 cells; tie-break fixed by Up, Down, Left,
    // Right expansion order.
    assert_eq!(
        path,
        vec![Cell(1, 1), Cell(2, 1), Cell(3, 1), Cell(3, 2), Cell(3, 3)]
    );
    // Deterministic breadth-first visit order, start first, finish last.
    assert_eq!(
        visits,
        vec![
            Cell(1, 1),
            Cell(2, 1),
            Cell(1, 2),
            Cell(3, 1),
            Cell(2, 2),
            Cell(1, 3),
            Cell(3, 2),
            Cell(2, 3),
            Cell(3, 3)
        ]
    );
    // Running the same search again returns the same result.
    let solver2 = BFSSolver::new(&m);
    let (visits2, path2) = solver2.solve();
    assert_eq!(visits, visits2);
    assert_eq!(path, path2.expect("same grid, same outcome"));
}

#[test]
fn solve_walled_grid_finds_no_path() {
    let m = walled_5x5(Cell(1, 1), Cell(3, 3));
    let solver = BFSSolver::new(&m);
    let (visits, path) = solver.solve();
    assert!(path.is_none());
    // The observer is never handed the finish.
    assert!(!visits.contains(&Cell(3, 3)));
    // Exactly the free cells on the start's side are expanded, each once.
    assert_eq!(visits, vec![Cell(1, 1), Cell(2, 1), Cell(3, 1)]);
}

#[test]
fn solve_start_equals_finish_yields_one_cell_path() {
    let m = open_5x5(Cell(2, 2), Cell(2, 2));
    let solver = BFSSolver::new(&m);
    let (visits, path) = solver.solve();
    assert_eq!(visits, vec![Cell(2, 2)]);
    assert_eq!(path.expect("trivial route"), vec![Cell(2, 2)]);
}

#[test]
fn solve_adjacent_start_finish() {
    let m = open_5x5(Cell(1, 1), Cell(1, 2));
    let solver = BFSSolver::new(&m);
    let (visits, path) = solver.solve();
    let path = path.expect("one move suffices");
    assert_eq!(path, vec![Cell(1, 1), Cell(1, 2)]);
    assert_eq!(visits.first(), Some(&Cell(1, 1)));
    assert_eq!(visits.last(), Some(&Cell(1, 2)));
}

#[test]
fn parse_usize_accepts_numerals() {
    assert_eq!(parse_usize("0"), Some(0));
    assert_eq!(parse_usize("123"), Some(123));
    assert_eq!(parse_usize("+42"), Some(42));
    assert_eq!(parse_usize("007"), Some(7));
}

#[test]
fn parse_usize_rejects_non_numerals() {
    assert_eq!(parse_usize(""), None);
    assert_eq!(parse_usize("+"), None);
    assert_eq!(parse_usize("abc"), None);
    assert_eq!(parse_usize("12a"), None);
    assert_eq!(parse_usize("-5"), None);
    assert_eq!(parse_usize(" 7"), None);
    assert_eq!(parse_usize("99999999999999999999999999999999"), None);
}

#[test]
fn is_number_matches_std_parsing() {
    for s in ["0", "8", "15", "80", "+3", "18446744073709551615"] {
        assert_eq!(is_number(s), s.parse::<usize>().is_ok(), "on {:?}", s);
    }
    for s in ["", "x", "1.5", "-1", "18446744073709551616"] {
        assert_eq!(is_number(s), s.parse::<usize>().is_ok(), "on {:?}", s);
    }
}

#[test]
fn is_algo_accepts_case_insensitive_names() {
    assert!(is_algo("DFS"));
    assert!(is_algo("BFS"));
    assert!(is_algo("dfs"));
    assert!(is_algo("bFs"));
    assert!(!is_algo("AFS"));
    assert!(!is_algo("BF"));
    assert!(!is_algo("BFSS"));
    assert!(!is_algo(""));
}

#[test]
fn search_algo_from_str_is_exact() {
    assert_eq!(SearchAlgo::from_str("DFS"), Ok(SearchAlgo::DFS));
    assert_eq!(SearchAlgo::from_str("BFS"), Ok(SearchAlgo::BFS));
    assert!(SearchAlgo::from_str("dfs").is_err());
    assert!(SearchAlgo::from_str("DFSX").is_err());
    let e = SearchAlgo::from_str("nope").unwrap_err();
    assert_eq!(e.message(), "provided string was not `DFS` or `BFS`");
}

#[test]
fn config_builder_and_default() {
    let c = Config::new(10, 20, SearchAlgo::DFS, 5);
    assert_eq!(c.n_rows, 10);
    assert_eq!(c.n_cols, 20);
    assert_eq!(c.algo, SearchAlgo::DFS);
    assert_eq!(c.step_delay, 5);
    let d = Config::default();
    assert_eq!((d.n_rows, d.n_cols, d.step_delay), (8, 15, 80));
    assert_eq!(d.algo, SearchAlgo::BFS);
}
