use sudoku_core::grid::Puzzle;
use sudoku_core::solver::Solver;

fn board(rows: [[u8; 9]; 9]) -> Puzzle {
    let mut flat: Vec<u8> = Vec::new();
    for row in rows.iter() {
        for v in row.iter() {
            flat.push(*v);
        }
    }
    match Puzzle::from_cells(flat) {
        Some(p) => p,
        None => panic!("cells out of range"),
    }
}

fn cells_of(p: &Puzzle) -> Vec<u8> {
    let mut out: Vec<u8> = Vec::new();
    for row in 0..9 {
        for col in 0..9 {
            out.push(p.get(row, col));
        }
    }
    out
}

fn classic() -> Puzzle {
    board([
        [5, 3, 0, 0, 7, 0, 0, 0, 0],
        [6, 0, 0, 1, 9, 5, 0, 0, 0],
        [0, 9, 8, 0, 0, 0, 0, 6, 0],
        [8, 0, 0, 0, 6, 0, 0, 0, 3],
        [4, 0, 0, 8, 0, 3, 0, 0, 1],
        [7, 0, 0, 0, 2, 0, 0, 0, 6],
        [0, 6, 0, 0, 0, 0, 2, 8, 0],
        [0, 0, 0, 4, 1, 9, 0, 0, 5],
        [0, 0, 0, 0, 8, 0, 0, 7, 9],
    ])
}

fn classic_solution() -> Puzzle {
    board([
        [5, 3, 4, 6, 7, 8, 9, 1, 2],
        [6, 7, 2, 1, 9, 5, 3, 4, 8],
        [1, 9, 8, 3, 4, 2, 5, 6, 7],
        [8, 5, 9, 7, 6, 1, 4, 2, 3],
        [4, 2, 6, 8, 5, 3, 7, 9, 1],
        [7, 1, 3, 9, 2, 4, 8, 5, 6],
        [9, 6, 1, 5, 3, 7, 2, 8, 4],
        [2, 8, 7, 4, 1, 9, 6, 3, 5],
        [3, 4, 5, 2, 8, 6, 1, 7, 9],
    ])
}

#[test]
fn test_solve_classic_puzzle() {
    let mut solver = Solver::new(classic());
    solver.solve();
    assert_eq!(cells_of(&solver.get_solution()), cells_of(&classic_solution()));
}

#[test]
fn test_solve_is_deterministic() {
    // Two runs on the same input produce the same output grid.
    let mut first = Solver::new(classic());
    first.solve();
    let mut second = Solver::new(classic());
    second.solve();
    assert_eq!(cells_of(&first.get_solution()), cells_of(&second.get_solution()));
}

#[test]
fn test_solve_keeps_given_clues() {
    let input = classic();
    let mut solver = Solver::new(classic());
    solver.solve();
    let output = solver.get_solution();
    for row in 0..9 {
        for col in 0..9 {
            let given = input.get(row, col);
            if given != 0 {
                assert_eq!(output.get(row, col), given);
            }
        }
    }
}

#[test]
fn test_solve_full_grid_unchanged() {
    // A grid with no empty cells comes back exactly as it went in.
    let mut solver = Solver::new(classic_solution());
    solver.solve();
    assert_eq!(cells_of(&solver.get_solution()), cells_of(&classic_solution()));
}

#[test]
fn test_solve_underconstrained_grid_terminates() {
    // An empty grid gives no technique any foothold: solve() must return,
    // leaving the unsolved cells at 0.
    let mut solver = Solver::new(Puzzle::new());
    solver.solve();
    let output = solver.get_solution();
    let zeros = cells_of(&output).iter().filter(|v| **v == 0).count();
    assert_eq!(zeros, 81);
}

#[test]
fn test_solve_nearly_empty_grid_keeps_zeros() {
    // A handful of clues is not enough to determine anything; the solver
    // stops short of the cap and leaves the rest of the grid empty.
    let mut solver = Solver::new(board([
        [1, 0, 0, 0, 0, 0, 0, 0, 0],
        [0, 0, 0, 0, 0, 0, 0, 0, 0],
        [0, 0, 0, 0, 0, 0, 0, 0, 0],
        [0, 0, 0, 0, 2, 0, 0, 0, 0],
        [0, 0, 0, 0, 0, 0, 0, 0, 0],
        [0, 0, 0, 0, 0, 0, 0, 0, 0],
        [0, 0, 0, 0, 0, 0, 0, 0, 0],
        [0, 0, 0, 0, 0, 0, 0, 3, 0],
        [0, 0, 0, 0, 0, 0, 0, 0, 0],
    ]));
    solver.solve();
    let output = solver.get_solution();
    assert_eq!(output.get(0, 0), 1);
    assert_eq!(output.get(3, 4), 2);
    assert_eq!(output.get(7, 7), 3);
    let zeros = cells_of(&output).iter().filter(|v| **v == 0).count();
    assert_eq!(zeros, 78);
}
